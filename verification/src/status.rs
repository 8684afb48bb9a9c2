//! Classification of HTTP status codes: which codes a filter accepts, and the
//! class by which a code is shown.

use vstd::prelude::*;

verus! {

/// Whether `status` passes the filter: an empty filter accepts every code,
/// any other filter accepts exactly its members.
pub open spec fn accepts_spec(filter: Seq<u16>, status: u16) -> bool {
    filter.len() == 0 || filter.contains(status)
}

/// Whether `status` passes `filter`.
pub fn accepts(filter: &[u16], status: u16) -> (r: bool)
    ensures
        r == accepts_spec(filter@, status),
{
    if filter.len() == 0 {
        return true;
    }
    let mut i: usize = 0;
    while i < filter.len()
        invariant
            i <= filter.len(),
            forall|j: int| 0 <= j < i ==> filter@[j] != status,
        decreases filter.len() - i,
    {
        if filter[i] == status {
            return true;
        }
        i += 1;
    }
    false
}

/// The class of a status code.
#[derive(Clone, Copy, Debug, PartialEq, Eq, Structural)]
pub enum StatusClass {
    /// 200 to 299.
    Success,
    /// 300 to 399.
    Redirect,
    /// 400 to 599.
    Failure,
    /// Any other code.
    Other,
}

/// The class of `status` by its range.
pub open spec fn classify_spec(status: u16) -> StatusClass {
    if 200 <= status <= 299 {
        StatusClass::Success
    } else if 300 <= status <= 399 {
        StatusClass::Redirect
    } else if 400 <= status <= 599 {
        StatusClass::Failure
    } else {
        StatusClass::Other
    }
}

/// The class of `status`.
pub fn classify(status: u16) -> (r: StatusClass)
    ensures
        r == classify_spec(status),
{
    if status >= 200 && status <= 299 {
        StatusClass::Success
    } else if status >= 300 && status <= 399 {
        StatusClass::Redirect
    } else if status >= 400 && status <= 599 {
        StatusClass::Failure
    } else {
        StatusClass::Other
    }
}

} // verus!
