//! URL variant generator: expands one wordlist entry into the URLs to probe.
//!
//! For a base URL, a path and a list of extensions the variants are the bare
//! path, the path with a trailing slash, and for each extension the path with
//! that extension, with and without a trailing slash. Trailing slashes of the
//! base are dropped before joining, and a URL that comes up twice is kept
//! once, at its first place.

use vstd::prelude::*;
use crate::text::{chars_of, string_of, text_eq};

verus! {

/// The views of the strings of `v`, in order.
pub open spec fn texts(v: Seq<String>) -> Seq<Seq<char>> {
    v.map_values(|s: String| s@)
}

/// `s` without the slashes at its end.
pub open spec fn strip_trailing_slashes(s: Seq<char>) -> Seq<char>
    decreases s.len(),
{
    if s.len() > 0 && s.last() == '/' {
        strip_trailing_slashes(s.drop_last())
    } else {
        s
    }
}

/// The bare URL of `path` under `base`: the base without its trailing
/// slashes, one slash, and the path.
pub open spec fn stem(base: Seq<char>, path: Seq<char>) -> Seq<char> {
    strip_trailing_slashes(base).push('/') + path
}

/// The `k`-th URL of the full listing for a bare URL `st`: the bare URL,
/// the bare URL with a slash, and then for each extension in turn the URL
/// with that extension and the same with a slash.
pub open spec fn variant_at(st: Seq<char>, exts: Seq<Seq<char>>, k: int) -> Seq<char> {
    if k == 0 {
        st
    } else if k == 1 {
        st.push('/')
    } else if k % 2 == 0 {
        st.push('.') + exts[(k - 2) / 2]
    } else {
        (st.push('.') + exts[(k - 3) / 2]).push('/')
    }
}

/// The full listing, duplicates included: `2 + 2 * exts.len()` URLs.
pub open spec fn variant_list(st: Seq<char>, exts: Seq<Seq<char>>) -> Seq<Seq<char>> {
    Seq::new((2 + 2 * exts.len()) as nat, |k: int| variant_at(st, exts, k))
}

/// `s` with every element kept at its first place only.
pub open spec fn dedup<A>(s: Seq<A>) -> Seq<A>
    decreases s.len(),
{
    if s.len() == 0 {
        s
    } else {
        let d = dedup(s.drop_last());
        if d.contains(s.last()) {
            d
        } else {
            d.push(s.last())
        }
    }
}

/// The URLs to probe for `path` under `base` with the extensions `exts`.
pub open spec fn variants(base: Seq<char>, path: Seq<char>, exts: Seq<Seq<char>>) -> Seq<
    Seq<char>,
> {
    dedup(variant_list(stem(base, path), exts))
}

/// Whether `u` has the shape of a variant of the bare URL `st`: `st` itself
/// or `st` with one of the extensions, each with or without a final slash.
pub open spec fn is_variant(st: Seq<char>, exts: Seq<Seq<char>>, u: Seq<char>) -> bool {
    ||| u == st
    ||| u == st.push('/')
    ||| exists|i: int|
        0 <= i < exts.len() && (u == st.push('.') + #[trigger] exts[i] || u == (st.push('.')
            + exts[i]).push('/'))
}

/// No two variants fall together: the extensions differ from one another,
/// and none is another one followed by a slash.
pub open spec fn no_collapse(exts: Seq<Seq<char>>) -> bool {
    forall|i: int, j: int|
        0 <= i < exts.len() && 0 <= j < exts.len() && i != j ==> #[trigger] exts[i]
            != #[trigger] exts[j] && exts[i] != exts[j].push('/')
}

/// `dedup` keeps exactly the elements of the sequence, each once, and
/// leaves a sequence without duplicates as it is.
pub proof fn lemma_dedup<A>(s: Seq<A>)
    ensures
        dedup(s).no_duplicates(),
        dedup(s).len() <= s.len(),
        forall|x: A| #[trigger] dedup(s).contains(x) <==> s.contains(x),
        s.no_duplicates() ==> dedup(s) == s,
    decreases s.len(),
{
    if s.len() > 0 {
        let p = s.drop_last();
        let d = dedup(p);
        lemma_dedup(p);
        assert forall|x: A| #[trigger] dedup(s).contains(x) <==> s.contains(x) by {
            if dedup(s).contains(x) {
                let k = choose|k: int| 0 <= k < dedup(s).len() && dedup(s)[k] == x;
                if k < d.len() {
                    assert(d[k] == x);
                    assert(dedup(p).contains(x));
                    assert(p.contains(x));
                    let m = choose|m: int| 0 <= m < p.len() && p[m] == x;
                    assert(s[m] == x);
                } else {
                    assert(s[s.len() - 1] == x);
                }
            }
            if s.contains(x) {
                let m = choose|m: int| 0 <= m < s.len() && s[m] == x;
                if m < p.len() {
                    assert(p[m] == x);
                    assert(p.contains(x));
                    assert(dedup(p).contains(x));
                    let k = choose|k: int| 0 <= k < d.len() && d[k] == x;
                    assert(dedup(s)[k] == x);
                } else if d.contains(x) {
                    let k = choose|k: int| 0 <= k < d.len() && d[k] == x;
                    assert(dedup(s)[k] == x);
                } else {
                    assert(dedup(s)[d.len() as int] == x);
                }
            }
        }
        if s.no_duplicates() {
            assert(p.no_duplicates());
            if d.contains(s.last()) {
                let m = choose|m: int| 0 <= m < p.len() && p[m] == s.last();
                assert(s[m] == s[s.len() - 1]);
            }
            assert(dedup(s) == s);
        }
    }
}

/// What the listing holds: exactly the URLs of the variant shape.
pub proof fn lemma_variant_list_members(st: Seq<char>, exts: Seq<Seq<char>>)
    ensures
        forall|u: Seq<char>| #[trigger]
            variant_list(st, exts).contains(u) <==> is_variant(st, exts, u),
{
    let l = variant_list(st, exts);
    assert forall|u: Seq<char>| #[trigger] l.contains(u) <==> is_variant(st, exts, u) by {
        if l.contains(u) {
            let k = choose|k: int| 0 <= k < l.len() && l[k] == u;
            assert(u == variant_at(st, exts, k));
            if k >= 2 {
                if k % 2 == 0 {
                    assert(u == st.push('.') + exts[(k - 2) / 2]);
                } else {
                    assert(u == (st.push('.') + exts[(k - 3) / 2]).push('/'));
                }
            }
        }
        if is_variant(st, exts, u) {
            if u == st {
                assert(l[0] == u);
            } else if u == st.push('/') {
                assert(l[1] == u);
            } else {
                let i = choose|i: int|
                    0 <= i < exts.len() && (u == st.push('.') + #[trigger] exts[i] || u == (
                    st.push('.') + exts[i]).push('/'));
                if u == st.push('.') + exts[i] {
                    assert(l[2 + 2 * i] == u);
                } else {
                    assert(l[3 + 2 * i] == u);
                }
            }
        }
    }
}

proof fn lemma_dedup_step<A>(s: Seq<A>, k: int)
    requires
        0 <= k < s.len(),
    ensures
        dedup(s.take(k + 1)) == if dedup(s.take(k)).contains(s[k]) {
            dedup(s.take(k))
        } else {
            dedup(s.take(k)).push(s[k])
        },
{
    assert(s.take(k + 1).drop_last() == s.take(k));
    assert(s.take(k + 1).last() == s[k]);
}

proof fn lemma_cancel_prefix(a: Seq<char>, e: Seq<char>, f: Seq<char>)
    requires
        a + e == a + f,
    ensures
        e == f,
{
    assert((a + e).subrange(a.len() as int, (a + e).len() as int) == e);
    assert((a + f).subrange(a.len() as int, (a + f).len() as int) == f);
}

/// Where no two variants fall together the listing has no duplicates.
pub proof fn lemma_variant_list_distinct(st: Seq<char>, exts: Seq<Seq<char>>)
    requires
        no_collapse(exts),
    ensures
        variant_list(st, exts).no_duplicates(),
{
    let l = variant_list(st, exts);
    let a = st.push('.');
    assert forall|i: int, j: int| 0 <= i < j < l.len() implies l[i] != l[j] by {
        let x = variant_at(st, exts, i);
        let y = variant_at(st, exts, j);
        if x == y {
            if i == 0 {
                assert(y.len() > st.len());
            } else if i == 1 {
                assert(x[st.len() as int] == '/');
                assert(a[st.len() as int] == '.');
                assert(y[st.len() as int] == '.');
            } else {
                let m = if i % 2 == 0 { (i - 2) / 2 } else { (i - 3) / 2 };
                let n = if j % 2 == 0 { (j - 2) / 2 } else { (j - 3) / 2 };
                let e = exts[m];
                let f = exts[n];
                if i % 2 == 0 && j % 2 == 0 {
                    lemma_cancel_prefix(a, e, f);
                } else if i % 2 == 0 {
                    assert((a + f).push('/') == a + f.push('/'));
                    lemma_cancel_prefix(a, e, f.push('/'));
                    assert(m != n);
                } else if j % 2 == 0 {
                    assert((a + e).push('/') == a + e.push('/'));
                    lemma_cancel_prefix(a, e.push('/'), f);
                    assert(m != n);
                } else {
                    assert((a + e).push('/').drop_last() == a + e);
                    assert((a + f).push('/').drop_last() == a + f);
                    lemma_cancel_prefix(a, e, f);
                }
            }
        }
    }
}

/// The variants of a path: each URL of the variant shape once, at most
/// `2 + 2 * exts.len()` in all and at least the two bare ones, and exactly
/// `2 + 2 * exts.len()` where no two variants fall together.
pub proof fn lemma_variants(base: Seq<char>, path: Seq<char>, exts: Seq<Seq<char>>)
    ensures
        variants(base, path, exts).no_duplicates(),
        forall|u: Seq<char>| #[trigger]
            variants(base, path, exts).contains(u) <==> is_variant(stem(base, path), exts, u),
        2 <= variants(base, path, exts).len() <= 2 + 2 * exts.len(),
        no_collapse(exts) ==> variants(base, path, exts) == variant_list(stem(base, path), exts),
        no_collapse(exts) ==> variants(base, path, exts).len() == 2 + 2 * exts.len(),
{
    let st = stem(base, path);
    let l = variant_list(st, exts);
    let v = variants(base, path, exts);
    lemma_dedup(l);
    lemma_variant_list_members(st, exts);
    assert forall|u: Seq<char>| #[trigger] v.contains(u) <==> is_variant(st, exts, u) by {
        assert(v.contains(u) <==> l.contains(u));
    }
    assert(is_variant(st, exts, st));
    assert(is_variant(st, exts, st.push('/')));
    assert(v.contains(st));
    assert(v.contains(st.push('/')));
    let i = choose|i: int| 0 <= i < v.len() && v[i] == st;
    let j = choose|j: int| 0 <= j < v.len() && v[j] == st.push('/');
    assert(i != j);
    if no_collapse(exts) {
        lemma_variant_list_distinct(st, exts);
    }
}

fn holds_text(v: &Vec<String>, s: &str) -> (r: bool)
    ensures
        r == texts(v@).contains(s@),
{
    let mut i: usize = 0;
    while i < v.len()
        invariant
            i <= v.len(),
            forall|j: int| 0 <= j < i ==> texts(v@)[j] != s@,
        decreases v.len() - i,
    {
        if text_eq(v[i].as_str(), s) {
            assert(texts(v@)[i as int] == s@);
            return true;
        }
        i += 1;
    }
    false
}

fn push_unique(out: &mut Vec<String>, s: String)
    ensures
        texts(final(out)@) == if texts(old(out)@).contains(s@) {
            texts(old(out)@)
        } else {
            texts(old(out)@).push(s@)
        },
{
    if !holds_text(out, s.as_str()) {
        out.push(s);
        assert(texts(out@) == texts(old(out)@).push(s@));
    }
}

fn stripped(base: &str) -> (r: String)
    ensures
        r@ == strip_trailing_slashes(base@),
{
    let cs = chars_of(base);
    let mut n: usize = cs.len();
    assert(cs@.take(n as int) == cs@);
    while n > 0 && cs[n - 1] == '/'
        invariant
            n <= cs.len(),
            strip_trailing_slashes(cs@) == strip_trailing_slashes(cs@.take(n as int)),
        decreases n,
    {
        assert(cs@.take(n as int).drop_last() == cs@.take(n - 1));
        n -= 1;
    }
    assert(cs@.take(n as int) == cs@.subrange(0, n as int));
    string_of(&cs, 0, n)
}

/// The URLs to probe for the wordlist entry `path` under `base_url`, each
/// once: the bare URL, the bare URL with a trailing slash, and each of the
/// two again with every extension.
pub fn generate_urls(base_url: &str, path: &str, extensions: &[String]) -> (r: Vec<String>)
    ensures
        texts(r@) == variants(base_url@, path@, texts(extensions@)),
        texts(r@).no_duplicates(),
        forall|u: Seq<char>| #[trigger]
            texts(r@).contains(u) <==> is_variant(stem(base_url@, path@), texts(extensions@), u),
        2 <= r.len() <= 2 + 2 * extensions.len(),
        no_collapse(texts(extensions@)) ==> r.len() == 2 + 2 * extensions.len(),
{
    let ghost exts = texts(extensions@);
    let ghost st = stem(base_url@, path@);
    let ghost list = variant_list(st, exts);
    let mut bare = stripped(base_url);
    bare.push('/');
    bare.append(path);
    assert(bare@ == st);
    let mut out: Vec<String> = Vec::new();
    let mut slashed = bare.clone();
    slashed.push('/');
    proof {
        assert(texts(out@) == dedup(list.take(0)));
        assert(bare@ == list[0]);
        assert(slashed@ == list[1]);
        lemma_dedup_step(list, 0);
        lemma_dedup_step(list, 1);
    }
    push_unique(&mut out, bare.clone());
    push_unique(&mut out, slashed);
    let mut i: usize = 0;
    while i < extensions.len()
        invariant
            i <= extensions.len(),
            exts == texts(extensions@),
            list == variant_list(st, exts),
            bare@ == st,
            texts(out@) == dedup(list.take(2 + 2 * i)),
        decreases extensions.len() - i,
    {
        let mut with_ext = bare.clone();
        with_ext.push('.');
        with_ext.append(extensions[i].as_str());
        let mut with_ext_slashed = with_ext.clone();
        with_ext_slashed.push('/');
        proof {
            assert(exts[i as int] == extensions@[i as int]@);
            assert(with_ext@ == list[2 + 2 * i]);
            assert(with_ext_slashed@ == list[3 + 2 * i]);
            lemma_dedup_step(list, 2 + 2 * i);
            lemma_dedup_step(list, 3 + 2 * i);
        }
        push_unique(&mut out, with_ext);
        push_unique(&mut out, with_ext_slashed);
        i += 1;
    }
    proof {
        assert(list.take(2 + 2 * i) == list);
        lemma_variants(base_url@, path@, exts);
    }
    out
}

} // verus!
