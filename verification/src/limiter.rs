//! Concurrency limiter: a counter of permits. A task holds one permit from
//! the moment it starts until all its work is done, and never more permits
//! are out than the limiter was made with.

use vstd::prelude::*;

verus! {

/// A counting limiter with a fixed number of permits.
pub struct Limiter {
    permits: usize,
    held: usize,
}

impl Limiter {
    #[verifier::type_invariant]
    spec fn inv(self) -> bool {
        self.held <= self.permits
    }

    /// The number of permits the limiter was made with.
    pub closed spec fn capacity(self) -> nat {
        self.permits as nat
    }

    /// The number of permits that are out.
    pub closed spec fn in_use(self) -> nat {
        self.held as nat
    }

    /// A limiter with `permits` permits, none of them out.
    pub fn new(permits: usize) -> (r: Limiter)
        ensures
            r.capacity() == permits,
            r.in_use() == 0,
    {
        Limiter { permits, held: 0 }
    }

    /// The number of permits the limiter was made with.
    pub fn permits(&self) -> (r: usize)
        ensures
            r == self.capacity(),
    {
        self.permits
    }

    /// The number of permits that are out.
    pub fn held(&self) -> (r: usize)
        ensures
            r == self.in_use(),
            r <= self.capacity(),
    {
        proof {
            use_type_invariant(self);
        }
        self.held
    }

    /// The number of permits that are free.
    pub fn available(&self) -> (r: usize)
        ensures
            r == self.capacity() - self.in_use(),
    {
        proof {
            use_type_invariant(self);
        }
        self.permits - self.held
    }

    /// Takes one permit if one is free, and says whether it did.
    pub fn try_acquire(&mut self) -> (r: bool)
        ensures
            r == (old(self).in_use() < old(self).capacity()),
            final(self).capacity() == old(self).capacity(),
            final(self).in_use() <= final(self).capacity(),
            r ==> final(self).in_use() == old(self).in_use() + 1,
            !r ==> final(self).in_use() == old(self).in_use(),
    {
        proof {
            use_type_invariant(&*self);
        }
        if self.held < self.permits {
            self.held = self.held + 1;
            true
        } else {
            false
        }
    }

    /// Gives one permit back if one is out, and says whether it did.
    pub fn release(&mut self) -> (r: bool)
        ensures
            r == (old(self).in_use() > 0),
            final(self).capacity() == old(self).capacity(),
            final(self).in_use() <= final(self).capacity(),
            r ==> final(self).in_use() == old(self).in_use() - 1,
            !r ==> final(self).in_use() == old(self).in_use(),
    {
        proof {
            use_type_invariant(&*self);
        }
        if self.held > 0 {
            self.held = self.held - 1;
            true
        } else {
            false
        }
    }
}

} // verus!
