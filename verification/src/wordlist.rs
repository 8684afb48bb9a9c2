//! Where a wordlist is looked for when none is named: a fixed list of
//! places, each with a tilde at its start replaced by the home directory,
//! of which the first that exists is taken.

use vstd::prelude::*;
use crate::urls::texts;

verus! {

/// The places where a wordlist is looked for, in order.
pub open spec fn default_paths() -> Seq<Seq<char>> {
    seq![
        "/usr/share/seclists/Discovery/Web-Content/raft-medium-directories-lowercase.txt"@,
        "/opt/seclists/Discovery/Web-Content/raft-medium-directories-lowercase.txt"@,
        "~/seclists/Discovery/Web-Content/raft-medium-directories-lowercase.txt"@,
        "./raft-medium-directories-lowercase.txt"@,
        "/usr/share/wordlists/seclists/raft-medium-directories-lowercase.txt"@,
        "~/wordlists/seclists/raft-medium-directories-lowercase.txt"@,
        "/usr/share/seclists/Discovery/Web-Content/directory-list-2.3-medium.txt"@,
        "/opt/seclists/Discovery/Web-Content/directory-list-2.3-medium.txt"@,
        "~/seclists/Discovery/Web-Content/directory-list-2.3-medium.txt"@,
        "/usr/share/wordlists/seclists/directory-list-2.3-medium.txt"@,
    ]
}

/// The places where a wordlist is looked for, in order.
pub fn default_wordlists() -> (r: Vec<String>)
    ensures
        texts(r@) == default_paths(),
{
    let mut out: Vec<String> = Vec::new();
    out.push(
        "/usr/share/seclists/Discovery/Web-Content/raft-medium-directories-lowercase.txt".to_owned(),
    );
    out.push("/opt/seclists/Discovery/Web-Content/raft-medium-directories-lowercase.txt".to_owned());
    out.push("~/seclists/Discovery/Web-Content/raft-medium-directories-lowercase.txt".to_owned());
    out.push("./raft-medium-directories-lowercase.txt".to_owned());
    out.push("/usr/share/wordlists/seclists/raft-medium-directories-lowercase.txt".to_owned());
    out.push("~/wordlists/seclists/raft-medium-directories-lowercase.txt".to_owned());
    out.push("/usr/share/seclists/Discovery/Web-Content/directory-list-2.3-medium.txt".to_owned());
    out.push("/opt/seclists/Discovery/Web-Content/directory-list-2.3-medium.txt".to_owned());
    out.push("~/seclists/Discovery/Web-Content/directory-list-2.3-medium.txt".to_owned());
    out.push("/usr/share/wordlists/seclists/directory-list-2.3-medium.txt".to_owned());
    assert(texts(out@) =~= default_paths());
    out
}

/// Whether a tilde at the start of `path` stands for the home directory:
/// the tilde is the whole path or is followed by a separator.
pub open spec fn has_home_tilde(path: Seq<char>) -> bool {
    path.len() > 0 && path[0] == '~' && (path.len() == 1 || path[1] == '/' || path[1] == '\\')
}

/// Whether `expanded` can be what the expansion of `path` gives: the path
/// itself, or for a path with a home tilde some directory followed by what
/// stands behind the tilde. Which directory it is, and whether there is
/// one, depends on the machine.
pub open spec fn expands_to(path: Seq<char>, expanded: Seq<char>) -> bool {
    ||| expanded == path
    ||| has_home_tilde(path) && expanded.len() >= path.len() - 1 && expanded.subrange(
        expanded.len() - (path.len() - 1),
        expanded.len() as int,
    ) == path.subrange(1, path.len() as int)
}

/// `shellexpand::tilde`: replaces a tilde at the start of the path by the
/// home directory. The contract claims what holds whatever the home
/// directory is: a path without a home tilde comes back unchanged, and any
/// other comes back unchanged or as a directory followed by the rest of the
/// path.
#[verifier::external_body]
fn expand_tilde(path: &str) -> (r: String)
    ensures
        expands_to(path@, r@),
{
    shellexpand::tilde(path).into_owned()
}

/// The places where a wordlist is looked for, each with its tilde expanded.
pub fn wordlist_candidates() -> (r: Vec<String>)
    ensures
        r.len() == default_paths().len(),
        forall|i: int|
            0 <= i < r.len() ==> expands_to(default_paths()[i], #[trigger] texts(r@)[i]),
{
    let places = default_wordlists();
    let mut out: Vec<String> = Vec::new();
    let mut i: usize = 0;
    while i < places.len()
        invariant
            i <= places.len(),
            texts(places@) == default_paths(),
            out.len() == i,
            forall|j: int| 0 <= j < i ==> expands_to(default_paths()[j], #[trigger] texts(out@)[j]),
        decreases places.len() - i,
    {
        let expanded = expand_tilde(places[i].as_str());
        let ghost prev = texts(out@);
        assert(texts(places@)[i as int] == places@[i as int]@);
        out.push(expanded);
        assert(texts(out@) == prev.push(expanded@));
        i += 1;
    }
    out
}

/// Whether `i` is the first place that is present.
pub open spec fn is_first_present(present: Seq<bool>, i: int) -> bool {
    &&& 0 <= i < present.len()
    &&& present[i]
    &&& forall|j: int| 0 <= j < i ==> !present[j]
}

/// The first place that is present, if any.
pub fn first_present(present: &[bool]) -> (r: Option<usize>)
    ensures
        match r {
            Some(i) => is_first_present(present@, i as int),
            None => forall|j: int| 0 <= j < present.len() ==> !present@[j],
        },
{
    let mut i: usize = 0;
    while i < present.len()
        invariant
            i <= present.len(),
            forall|j: int| 0 <= j < i ==> !present@[j],
        decreases present.len() - i,
    {
        if present[i] {
            return Some(i);
        }
        i += 1;
    }
    None
}

/// The wordlist to use: of the places `candidates`, the first that is
/// present. `present[i]` says whether `candidates[i]` exists; a place
/// without such a word counts as absent.
pub fn find_wordlist(candidates: &Vec<String>, present: &[bool]) -> (r: Option<String>)
    ensures
        match r {
            Some(p) => exists|i: int|
                is_first_present(present@, i) && i < candidates.len() && p@
                    == #[trigger] texts(candidates@)[i],
            None => forall|j: int|
                0 <= j < present.len() && j < candidates.len() ==> !present@[j],
        },
{
    match first_present(present) {
        Some(i) => {
            if i < candidates.len() {
                assert(texts(candidates@)[i as int] == candidates@[i as int]@);
                Some(candidates[i].clone())
            } else {
                None
            }
        },
        None => None,
    }
}

} // verus!
