//! Reading the values of a scan from their textual form: lists separated
//! by commas, decimal numbers, the request method, and the defaults that
//! stand in for what cannot be read.

use vstd::prelude::*;
use crate::config::Method;
use crate::text::{chars_of, string_of, text_eq};
use crate::urls::texts;

verus! {

/// Names what `char::is_whitespace` returns for a character: whether the
/// character has the Unicode property White_Space.
pub uninterp spec fn is_white_space(c: char) -> bool;

/// Names what `str::to_lowercase` returns for a string.
pub uninterp spec fn lowercased(s: Seq<char>) -> Seq<char>;

/// Names what `str::to_uppercase` returns for a string.
pub uninterp spec fn uppercased(s: Seq<char>) -> Seq<char>;

/// `char::is_whitespace` of the standard library. The contract gives its
/// result the name `is_white_space`; nothing more is claimed of it.
#[verifier::external_body]
fn is_whitespace(c: char) -> (r: bool)
    ensures
        r == is_white_space(c),
{
    c.is_whitespace()
}

/// `str::to_lowercase` of the standard library. The contract gives its
/// result the name `lowercased`; nothing more is claimed of it.
#[verifier::external_body]
fn lower_text(s: &str) -> (r: String)
    ensures
        r@ == lowercased(s@),
{
    s.to_lowercase()
}

/// `str::to_uppercase` of the standard library. The contract gives its
/// result the name `uppercased`; nothing more is claimed of it.
#[verifier::external_body]
fn upper_text(s: &str) -> (r: String)
    ensures
        r@ == uppercased(s@),
{
    s.to_uppercase()
}

/// `s` without the white space at its start.
pub open spec fn trim_start(s: Seq<char>) -> Seq<char>
    decreases s.len(),
{
    if s.len() > 0 && is_white_space(s.first()) {
        trim_start(s.drop_first())
    } else {
        s
    }
}

/// `s` without the white space at its end.
pub open spec fn trim_end(s: Seq<char>) -> Seq<char>
    decreases s.len(),
{
    if s.len() > 0 && is_white_space(s.last()) {
        trim_end(s.drop_last())
    } else {
        s
    }
}

/// `s` without the white space at its two ends.
pub open spec fn trimmed(s: Seq<char>) -> Seq<char> {
    trim_end(trim_start(s))
}

/// `s` without the white space at its two ends.
pub fn trim(s: &str) -> (r: String)
    ensures
        r@ == trimmed(s@),
{
    let cs = chars_of(s);
    let n = cs.len();
    let mut start: usize = 0;
    assert(cs@.subrange(0, n as int) == cs@);
    while start < n && is_whitespace(cs[start])
        invariant
            start <= n,
            n == cs.len(),
            trim_start(cs@) == trim_start(cs@.subrange(start as int, n as int)),
        decreases n - start,
    {
        assert(cs@.subrange(start as int, n as int).drop_first() == cs@.subrange(
            start + 1,
            n as int,
        ));
        start += 1;
    }
    assert(trim_start(cs@) == cs@.subrange(start as int, n as int));
    let mut end: usize = n;
    while end > start && is_whitespace(cs[end - 1])
        invariant
            start <= end <= n,
            n == cs.len(),
            trim_end(cs@.subrange(start as int, n as int)) == trim_end(
                cs@.subrange(start as int, end as int),
            ),
        decreases end,
    {
        assert(cs@.subrange(start as int, end as int).drop_last() == cs@.subrange(
            start as int,
            end - 1,
        ));
        end -= 1;
    }
    string_of(&cs, start, end)
}

/// The pieces of `s` between the occurrences of `sep`: one piece more than
/// there are separators, empty pieces included.
pub open spec fn split_on(s: Seq<char>, sep: char) -> Seq<Seq<char>>
    decreases s.len(),
{
    if s.len() == 0 {
        seq![Seq::<char>::empty()]
    } else {
        let rest = split_on(s.drop_last(), sep);
        if s.last() == sep {
            rest.push(Seq::<char>::empty())
        } else {
            rest.drop_last().push(rest.last().push(s.last()))
        }
    }
}

/// The pieces of `s` between its commas.
pub fn split_commas(s: &str) -> (r: Vec<String>)
    ensures
        texts(r@) == split_on(s@, ','),
{
    let mut done: Vec<String> = Vec::new();
    let mut current = String::new();
    proof {
        assert(s@.take(0) == Seq::<char>::empty());
        assert(texts(done@).push(current@) == split_on(s@.take(0), ','));
    }
    for c in it: s.chars()
        invariant
            it.seq() == s@,
            texts(done@).push(current@) == split_on(s@.take(it.index() as int), ','),
    {
        let ghost i = it.index() as int;
        let ghost before = split_on(s@.take(i), ',');
        proof {
            assert(s@.take(i + 1).drop_last() == s@.take(i));
            assert(s@.take(i + 1).last() == c);
            assert(before.last() == current@);
            assert(before.drop_last() == texts(done@));
        }
        if c == ',' {
            let ghost prev = texts(done@);
            done.push(current);
            assert(texts(done@) == prev.push(before.last()));
            current = String::new();
        } else {
            current.push(c);
        }
    }
    proof {
        assert(s@.take(s@.len() as int) == s@);
    }
    let ghost prev = texts(done@);
    done.push(current);
    assert(texts(done@) == prev.push(current@));
    done
}

/// The strings of `v` that are not empty, in order.
pub open spec fn nonempty(v: Seq<Seq<char>>) -> Seq<Seq<char>>
    decreases v.len(),
{
    if v.len() == 0 {
        v
    } else if v.last().len() > 0 {
        nonempty(v.drop_last()).push(v.last())
    } else {
        nonempty(v.drop_last())
    }
}

/// The strings of `v` that are not empty, in order.
pub fn drop_empty(v: Vec<String>) -> (r: Vec<String>)
    ensures
        texts(r@) == nonempty(texts(v@)),
{
    let mut out: Vec<String> = Vec::new();
    let mut i: usize = 0;
    assert(texts(v@).take(0) == Seq::<Seq<char>>::empty());
    while i < v.len()
        invariant
            i <= v.len(),
            texts(out@) == nonempty(texts(v@).take(i as int)),
        decreases v.len() - i,
    {
        proof {
            assert(texts(v@).take(i + 1).drop_last() == texts(v@).take(i as int));
            assert(texts(v@).take(i + 1).last() == v@[i as int]@);
        }
        if v[i].as_str().unicode_len() > 0 {
            let ghost prev = texts(out@);
            out.push(v[i].clone());
            assert(texts(out@) == prev.push(v@[i as int]@));
        }
        i += 1;
    }
    assert(texts(v@).take(i as int) == texts(v@));
    out
}

/// Each piece trimmed and then put in lower case.
pub open spec fn normalized(pieces: Seq<Seq<char>>) -> Seq<Seq<char>> {
    pieces.map_values(|p: Seq<char>| lowercased(trimmed(p)))
}

/// The extensions that a comma-separated list names: every piece trimmed
/// and in lower case, without the pieces that come out empty.
pub open spec fn extensions_of(raw: Seq<char>) -> Seq<Seq<char>> {
    nonempty(normalized(split_on(raw, ',')))
}

/// Reads a comma-separated list of extensions.
pub fn parse_extensions(raw: &str) -> (r: Vec<String>)
    ensures
        texts(r@) == extensions_of(raw@),
{
    let pieces = split_commas(raw);
    let mut cleaned: Vec<String> = Vec::new();
    let mut i: usize = 0;
    while i < pieces.len()
        invariant
            i <= pieces.len(),
            texts(cleaned@) == normalized(texts(pieces@)).take(i as int),
        decreases pieces.len() - i,
    {
        let ghost prev = texts(cleaned@);
        let piece = lower_text(trim(pieces[i].as_str()).as_str());
        cleaned.push(piece);
        proof {
            let all = normalized(texts(pieces@));
            assert(texts(cleaned@) == prev.push(all[i as int]));
            assert(all.take(i + 1) == all.take(i as int).push(all[i as int]));
        }
        i += 1;
    }
    assert(normalized(texts(pieces@)).take(i as int) == normalized(texts(pieces@)));
    drop_empty(cleaned)
}

/// Whether `c` is a decimal digit.
pub open spec fn is_digit(c: char) -> bool {
    '0' <= c <= '9'
}

/// The value of the digit `c`; 0 for any other character.
pub open spec fn digit_value(c: char) -> nat {
    if is_digit(c) {
        (c as int - '0' as int) as nat
    } else {
        0
    }
}

/// The number that the digits `d` write in base ten.
pub open spec fn digits_value(d: Seq<char>) -> nat
    decreases d.len(),
{
    if d.len() == 0 {
        0
    } else {
        digits_value(d.drop_last()) * 10 + digit_value(d.last())
    }
}

/// Whether `d` holds digits only.
pub open spec fn all_digits(d: Seq<char>) -> bool {
    forall|i: int| 0 <= i < d.len() ==> is_digit(#[trigger] d[i])
}

/// `s` without a plus sign at its start.
pub open spec fn unsigned_part(s: Seq<char>) -> Seq<char> {
    if s.len() > 0 && s[0] == '+' {
        s.drop_first()
    } else {
        s
    }
}

/// The number up to `max` that `s` writes: an optional plus sign and then
/// one digit or more, nothing else; `None` for any other string and for a
/// number above `max`.
pub open spec fn decimal(s: Seq<char>, max: nat) -> Option<nat> {
    let d = unsigned_part(s);
    if d.len() > 0 && all_digits(d) && digits_value(d) <= max {
        Some(digits_value(d))
    } else {
        None
    }
}

proof fn lemma_value_monotonic(d: Seq<char>, k: int)
    requires
        0 <= k <= d.len(),
    ensures
        digits_value(d.take(k)) <= digits_value(d),
    decreases d.len(),
{
    if k == d.len() {
        assert(d.take(k) == d);
    } else {
        lemma_value_monotonic(d.drop_last(), k);
        assert(d.drop_last().take(k) == d.take(k));
    }
}

/// Reads a decimal number up to `max`.
pub fn parse_decimal(s: &str, max: u64) -> (r: Option<u64>)
    ensures
        match r {
            Some(v) => decimal(s@, max as nat) == Some(v as nat),
            None => decimal(s@, max as nat) is None,
        },
{
    let cs = chars_of(s);
    let n = cs.len();
    let start: usize = if n > 0 && cs[0] == '+' {
        1
    } else {
        0
    };
    let ghost d = unsigned_part(s@);
    assert(d == cs@.subrange(start as int, n as int));
    if start == n {
        return None;
    }
    let mut acc: u64 = 0;
    let mut i: usize = start;
    assert(d.take(0) == Seq::<char>::empty());
    while i < n
        invariant
            start <= i <= n,
            n == cs.len(),
            d == cs@.subrange(start as int, n as int),
            d == unsigned_part(s@),
            all_digits(d.take(i - start)),
            acc == digits_value(d.take(i - start)),
            acc <= max,
        decreases n - i,
    {
        let c = cs[i];
        let ghost k = i - start;
        proof {
            assert(d[k] == c);
            assert(d.take(k + 1).drop_last() == d.take(k));
            assert(d.take(k + 1).last() == c);
        }
        if !(c >= '0' && c <= '9') {
            assert(!is_digit(d[k]));
            return None;
        }
        let v: u64 = (c as u32 - '0' as u32) as u64;
        assert(v == digit_value(c));
        if v > max || acc > (max - v) / 10 {
            proof {
                assert(digits_value(d.take(k + 1)) == acc * 10 + v);
                lemma_value_monotonic(d, k + 1);
            }
            return None;
        }
        acc = acc * 10 + v;
        assert(all_digits(d.take(k + 1))) by {
            assert forall|j: int| 0 <= j < k + 1 implies is_digit(#[trigger] d.take(k + 1)[j]) by {
                if j < k {
                    assert(d.take(k)[j] == d.take(k + 1)[j]);
                }
            }
        }
        i += 1;
    }
    proof {
        assert(d.take(i - start) == d);
    }
    Some(acc)
}

/// The status codes that a list of pieces names: each piece that writes a
/// number up to 65535, in order; the other pieces are passed over.
pub open spec fn codes_of(pieces: Seq<Seq<char>>) -> Seq<u16>
    decreases pieces.len(),
{
    if pieces.len() == 0 {
        Seq::<u16>::empty()
    } else {
        match decimal(pieces.last(), 65535) {
            Some(v) => codes_of(pieces.drop_last()).push(v as u16),
            None => codes_of(pieces.drop_last()),
        }
    }
}

/// Reads a comma-separated list of status codes. A piece that is not a
/// number is passed over.
pub fn parse_status_codes(raw: &str) -> (r: Vec<u16>)
    ensures
        r@ == codes_of(split_on(raw@, ',')),
{
    let pieces = split_commas(raw);
    let mut out: Vec<u16> = Vec::new();
    let mut i: usize = 0;
    let ghost all = texts(pieces@);
    assert(all.take(0) == Seq::<Seq<char>>::empty());
    while i < pieces.len()
        invariant
            i <= pieces.len(),
            all == texts(pieces@),
            out@ == codes_of(all.take(i as int)),
        decreases pieces.len() - i,
    {
        proof {
            assert(all.take(i + 1).drop_last() == all.take(i as int));
            assert(all.take(i + 1).last() == pieces@[i as int]@);
        }
        match parse_decimal(pieces[i].as_str(), 65535) {
            Some(v) => {
                out.push(v as u16);
            },
            None => {},
        }
        i += 1;
    }
    assert(all.take(i as int) == all);
    out
}

/// The status codes of interest where none are named.
pub open spec fn default_codes() -> Seq<u16> {
    seq![200u16, 204u16, 301u16, 302u16, 307u16, 401u16, 403u16]
}

/// The status codes of interest where none are named.
pub fn default_status_codes() -> (r: Vec<u16>)
    ensures
        r@ == default_codes(),
{
    let mut out: Vec<u16> = Vec::new();
    out.push(200);
    out.push(204);
    out.push(301);
    out.push(302);
    out.push(307);
    out.push(401);
    out.push(403);
    assert(out@ == default_codes());
    out
}

/// The method that a name in upper case stands for: `POST` for POST, and
/// GET for every other name.
pub open spec fn method_named(upper: Seq<char>) -> Method {
    if upper == "POST"@ {
        Method::Post
    } else {
        Method::Get
    }
}

/// The method that the name `upper`, already in upper case, stands for.
pub fn method_of(upper: &str) -> (r: Method)
    ensures
        r == method_named(upper@),
{
    if text_eq(upper, "POST") {
        Method::Post
    } else {
        Method::Get
    }
}

/// Reads the request method, whatever the case of its letters.
pub fn parse_method(raw: &str) -> (r: Method)
    ensures
        r == method_named(uppercased(raw@)),
{
    let upper = upper_text(raw);
    method_of(upper.as_str())
}

/// The number of tasks that may probe at once where none can be read.
pub const DEFAULT_THREADS: usize = 20;

/// The time allowed for one request, in seconds, where none can be read.
pub const DEFAULT_TIMEOUT: u64 = 10;

/// Reads the number of tasks that may probe at once; 20 where `raw` is not
/// a number that fits.
pub fn parse_threads(raw: &str) -> (r: usize)
    ensures
        r == match decimal(raw@, usize::MAX as nat) {
            Some(v) => v,
            None => DEFAULT_THREADS as nat,
        },
{
    match parse_decimal(raw, usize::MAX as u64) {
        Some(v) => v as usize,
        None => DEFAULT_THREADS,
    }
}

/// Reads the time allowed for one request, in seconds; 10 where `raw` is
/// not a number that fits.
pub fn parse_timeout(raw: &str) -> (r: u64)
    ensures
        r == match decimal(raw@, u64::MAX as nat) {
            Some(v) => v,
            None => DEFAULT_TIMEOUT as nat,
        },
{
    match parse_decimal(raw, u64::MAX) {
        Some(v) => v,
        None => DEFAULT_TIMEOUT,
    }
}

} // verus!
