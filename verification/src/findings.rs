//! Result aggregator: the set of findings of a scan, and its sorted report.
//!
//! A finding is a URL with the status code it answered. The aggregator is a
//! set: recording a finding a second time changes nothing. The report lists
//! the findings by URL in the order of strings, and findings of one URL by
//! status code, so that it depends on the set alone and not on the order in
//! which the findings came in.

use vstd::prelude::*;
use crate::text::{
    text_eq,
    text_less,
    text_lt,
    lemma_text_lt_irreflexive,
    lemma_text_lt_transitive,
    lemma_text_lt_connected,
};

verus! {

/// The model of a finding: the URL and the status code.
pub type FindingView = (Seq<char>, u16);

/// A URL that answered with a status code that passed the filter.
#[derive(Debug, PartialEq, Eq)]
pub struct FindingRecord {
    pub url: String,
    pub status: u16,
}

impl View for FindingRecord {
    type V = FindingView;

    open spec fn view(&self) -> FindingView {
        (self.url@, self.status)
    }
}

impl Clone for FindingRecord {
    fn clone(&self) -> (r: FindingRecord)
        ensures
            r@ == self@,
    {
        FindingRecord { url: self.url.clone(), status: self.status }
    }
}

/// The models of the findings of `v`, in order.
pub open spec fn views(v: Seq<FindingRecord>) -> Seq<FindingView> {
    v.map_values(|f: FindingRecord| f@)
}

/// The order of the report: by URL in the order of strings, and under one
/// URL by status code.
pub open spec fn finding_lt(a: FindingView, b: FindingView) -> bool {
    text_lt(a.0, b.0) || (a.0 == b.0 && a.1 < b.1)
}

/// Whether each finding of `s` comes strictly before all later ones.
pub open spec fn strictly_sorted(s: Seq<FindingView>) -> bool {
    forall|i: int, j: int| 0 <= i < j < s.len() ==> finding_lt(#[trigger] s[i], #[trigger] s[j])
}

/// Whether `r` is the report of the set `found`: it lists exactly the
/// findings of the set, in the order of the report.
pub open spec fn is_report_of(r: Seq<FindingView>, found: Set<FindingView>) -> bool {
    &&& strictly_sorted(r)
    &&& forall|f: FindingView| #[trigger] r.contains(f) <==> found.contains(f)
}

/// No finding comes before itself.
pub proof fn lemma_finding_lt_irreflexive(a: FindingView)
    ensures
        !finding_lt(a, a),
{
    lemma_text_lt_irreflexive(a.0);
}

/// The order of the report is transitive.
pub proof fn lemma_finding_lt_transitive(a: FindingView, b: FindingView, c: FindingView)
    requires
        finding_lt(a, b),
        finding_lt(b, c),
    ensures
        finding_lt(a, c),
{
    if text_lt(a.0, b.0) && text_lt(b.0, c.0) {
        lemma_text_lt_transitive(a.0, b.0, c.0);
    }
}

/// The order of the report is total: of two different findings one comes
/// before the other.
pub proof fn lemma_finding_lt_connected(a: FindingView, b: FindingView)
    requires
        !finding_lt(a, b),
        !finding_lt(b, a),
    ensures
        a == b,
{
    lemma_text_lt_connected(a.0, b.0);
}

/// A set has one report only: two sorted listings of the same findings are
/// the same listing, whatever the order in which the findings were found.
pub proof fn lemma_report_unique(a: Seq<FindingView>, b: Seq<FindingView>)
    requires
        strictly_sorted(a),
        strictly_sorted(b),
        forall|f: FindingView| #[trigger] a.contains(f) <==> b.contains(f),
    ensures
        a == b,
    decreases a.len(),
{
    if a.len() == 0 {
        if b.len() > 0 {
            assert(b.contains(b[0]));
            assert(a.contains(b[0]));
        }
        assert(a == b);
    } else {
        assert(a.contains(a[0]));
        assert(b.contains(a[0]));
        let k = choose|k: int| 0 <= k < b.len() && b[k] == a[0];
        assert(b.contains(b[0]));
        assert(a.contains(b[0]));
        let m = choose|m: int| 0 <= m < a.len() && a[m] == b[0];
        if k > 0 {
            assert(finding_lt(b[0], b[k]));
            lemma_finding_lt_irreflexive(a[0]);
            assert(m > 0);
            assert(finding_lt(a[0], a[m]));
            lemma_finding_lt_transitive(a[0], b[0], a[0]);
        }
        assert(a[0] == b[0]);
        let at = a.subrange(1, a.len() as int);
        let bt = b.subrange(1, b.len() as int);
        assert(strictly_sorted(at)) by {
            assert forall|i: int, j: int| 0 <= i < j < at.len() implies finding_lt(
                #[trigger] at[i],
                #[trigger] at[j],
            ) by {
                assert(finding_lt(a[i + 1], a[j + 1]));
            }
        }
        assert(strictly_sorted(bt)) by {
            assert forall|i: int, j: int| 0 <= i < j < bt.len() implies finding_lt(
                #[trigger] bt[i],
                #[trigger] bt[j],
            ) by {
                assert(finding_lt(b[i + 1], b[j + 1]));
            }
        }
        assert forall|f: FindingView| #[trigger] at.contains(f) <==> bt.contains(f) by {
            lemma_finding_lt_irreflexive(f);
            if at.contains(f) {
                let i = choose|i: int| 0 <= i < at.len() && at[i] == f;
                assert(a[i + 1] == f);
                assert(finding_lt(a[0], a[i + 1]));
                assert(a.contains(f));
                assert(b.contains(f));
                let j = choose|j: int| 0 <= j < b.len() && b[j] == f;
                assert(j > 0);
                assert(bt[j - 1] == f);
            }
            if bt.contains(f) {
                let i = choose|i: int| 0 <= i < bt.len() && bt[i] == f;
                assert(b[i + 1] == f);
                assert(finding_lt(b[0], b[i + 1]));
                assert(b.contains(f));
                assert(a.contains(f));
                let j = choose|j: int| 0 <= j < a.len() && a[j] == f;
                assert(j > 0);
                assert(at[j - 1] == f);
            }
        }
        lemma_report_unique(at, bt);
        assert(a == seq![a[0]] + at);
        assert(b == seq![b[0]] + bt);
    }
}

/// Recording a finding twice is the same as recording it once.
pub proof fn lemma_record_idempotent(found: Set<FindingView>, f: FindingView)
    ensures
        found.insert(f).insert(f) == found.insert(f),
        found.insert(f).insert(f).len() == found.insert(f).len(),
{
    assert(found.insert(f).insert(f) == found.insert(f));
}

/// Recording two findings gives the same set in either order.
pub proof fn lemma_record_commutes(found: Set<FindingView>, f: FindingView, g: FindingView)
    ensures
        found.insert(f).insert(g) == found.insert(g).insert(f),
{
    assert(found.insert(f).insert(g) == found.insert(g).insert(f));
}

/// Whether `a` comes strictly before `b` in the order of the report.
pub fn finding_less(a: &FindingRecord, b: &FindingRecord) -> (r: bool)
    ensures
        r == finding_lt(a@, b@),
{
    if text_less(a.url.as_str(), b.url.as_str()) {
        true
    } else if text_eq(a.url.as_str(), b.url.as_str()) {
        a.status < b.status
    } else {
        false
    }
}

/// The set of findings of one scan.
pub struct Aggregator {
    items: Vec<FindingRecord>,
}

impl View for Aggregator {
    type V = Set<FindingView>;

    closed spec fn view(&self) -> Set<FindingView> {
        views(self.items@).to_set()
    }
}

impl Aggregator {
    /// The invariant of the aggregator: it holds each finding once. Every
    /// aggregator made by `new` and changed by `record` has it.
    pub closed spec fn wf(&self) -> bool {
        views(self.items@).no_duplicates()
    }

    /// An aggregator that holds no finding.
    pub fn new() -> (r: Aggregator)
        ensures
            r.wf(),
            r@ == Set::<FindingView>::empty(),
    {
        let r = Aggregator { items: Vec::new() };
        assert(views(r.items@).to_set() == Set::<FindingView>::empty());
        r
    }

    fn position_of(&self, url: &str, status: u16) -> (r: Option<usize>)
        ensures
            r.is_some() == self@.contains((url@, status)),
            r.is_some() ==> r.unwrap() < self.items.len() && self.items@[r.unwrap() as int]@ == (
                url@,
                status,
            ),
    {
        let mut i: usize = 0;
        while i < self.items.len()
            invariant
                i <= self.items.len(),
                forall|j: int| 0 <= j < i ==> views(self.items@)[j] != (url@, status),
            decreases self.items.len() - i,
        {
            if self.items[i].status == status && text_eq(self.items[i].url.as_str(), url) {
                assert(views(self.items@)[i as int] == (url@, status));
                return Some(i);
            }
            i += 1;
        }
        None
    }

    /// Whether the finding `(url, status)` has been recorded.
    pub fn contains(&self, url: &str, status: u16) -> (r: bool)
        ensures
            r == self@.contains((url@, status)),
    {
        self.position_of(url, status).is_some()
    }

    /// Records the finding `(url, status)`. Where it is recorded already,
    /// nothing changes.
    pub fn record(&mut self, url: &str, status: u16)
        requires
            old(self).wf(),
        ensures
            final(self).wf(),
            final(self)@ == old(self)@.insert((url@, status)),
            old(self)@.contains((url@, status)) ==> final(self)@ == old(self)@,
            final(self)@.len() == old(self)@.len() + if old(self)@.contains((url@, status)) {
                0int
            } else {
                1int
            },
    {
        proof {
            views(self.items@).unique_seq_to_set();
        }
        if self.position_of(url, status).is_none() {
            let ghost before = views(self.items@);
            self.items.push(FindingRecord { url: url.to_owned(), status });
            proof {
                assert(views(self.items@) == before.push((url@, status)));
                before.lemma_push_to_set_commute((url@, status));
                assert(views(self.items@).no_duplicates());
                views(self.items@).unique_seq_to_set();
            }
        } else {
            assert(old(self)@.insert((url@, status)) == old(self)@);
        }
    }

    /// The number of findings.
    pub fn len(&self) -> (r: usize)
        requires
            self.wf(),
        ensures
            r == self@.len(),
            self@.finite(),
    {
        proof {
            views(self.items@).unique_seq_to_set();
        }
        self.items.len()
    }

    /// Whether no finding has been recorded.
    pub fn is_empty(&self) -> (r: bool)
        ensures
            r == (self@ == Set::<FindingView>::empty()),
    {
        proof {
            if self.items.len() > 0 {
                assert(views(self.items@)[0] == self.items@[0]@);
                assert(views(self.items@).contains(self.items@[0]@));
                assert(self@.contains(self.items@[0]@));
            } else {
                assert(views(self.items@).to_set() == Set::<FindingView>::empty());
            }
        }
        self.items.len() == 0
    }

    /// A copy of the findings, each once, in the order in which they were
    /// first recorded.
    pub fn snapshot(&self) -> (r: Vec<FindingRecord>)
        requires
            self.wf(),
        ensures
            views(r@).no_duplicates(),
            views(r@).to_set() == self@,
            r.len() == self@.len(),
    {
        proof {
            views(self.items@).unique_seq_to_set();
        }
        let mut out: Vec<FindingRecord> = Vec::new();
        let mut i: usize = 0;
        while i < self.items.len()
            invariant
                i <= self.items.len(),
                views(out@) == views(self.items@).take(i as int),
            decreases self.items.len() - i,
        {
            let item = self.items[i].clone();
            let ghost prev = views(out@);
            let ghost all = views(self.items@);
            assert(item@ == all[i as int]);
            out.push(item);
            assert(views(out@) == prev.push(all[i as int]));
            assert(all.take(i + 1) == all.take(i as int).push(all[i as int]));
            i += 1;
        }
        assert(views(self.items@).take(i as int) == views(self.items@));
        out
    }

    /// The report: the findings in the order of the report.
    pub fn sorted(&self) -> (r: Vec<FindingRecord>)
        requires
            self.wf(),
        ensures
            is_report_of(views(r@), self@),
            r.len() == self@.len(),
    {
        proof {
            views(self.items@).unique_seq_to_set();
        }
        let ghost all = views(self.items@);
        let mut out: Vec<FindingRecord> = Vec::new();
        let mut i: usize = 0;
        while i < self.items.len()
            invariant
                i <= self.items.len(),
                all == views(self.items@),
                all.no_duplicates(),
                out.len() == i,
                strictly_sorted(views(out@)),
                forall|f: FindingView| #[trigger]
                    views(out@).contains(f) <==> all.take(i as int).contains(f),
            decreases self.items.len() - i,
        {
            let item = self.items[i].clone();
            let ghost f = item@;
            let ghost before = views(out@);
            assert(f == all[i as int]);
            let mut p: usize = 0;
            while p < out.len() && finding_less(&out[p], &item)
                invariant
                    p <= out.len(),
                    before == views(out@),
                    f == item@,
                    forall|j: int| 0 <= j < p ==> finding_lt(#[trigger] before[j], f),
                decreases out.len() - p,
            {
                assert(before[p as int] == out@[p as int]@);
                p += 1;
            }
            assert(p < out.len() ==> !finding_lt(before[p as int], f)) by {
                if p < out.len() {
                    assert(before[p as int] == out@[p as int]@);
                }
            }
            out.insert(p, item);
            proof {
                let after = views(out@);
                let ti = all.take(i as int);
                let tn = all.take(i + 1);
                before.insert_ensures(p as int, f);
                assert(after == before.insert(p as int, f));
                assert(!before.contains(f)) by {
                    if before.contains(f) {
                        assert(ti.contains(f));
                        let k = choose|k: int| 0 <= k < ti.len() && ti[k] == f;
                        assert(all[k] == all[i as int]);
                    }
                }
                assert forall|j: int| p <= j < before.len() implies finding_lt(
                    f,
                    #[trigger] before[j],
                ) by {
                    assert(!finding_lt(before[p as int], f));
                    assert(before.contains(before[p as int]));
                    if !finding_lt(f, before[p as int]) {
                        lemma_finding_lt_connected(f, before[p as int]);
                    }
                    if j > p {
                        assert(finding_lt(before[p as int], before[j]));
                        lemma_finding_lt_transitive(f, before[p as int], before[j]);
                    }
                }
                assert forall|a: int, b: int| 0 <= a < b < after.len() implies finding_lt(
                    #[trigger] after[a],
                    #[trigger] after[b],
                ) by {
                    let x = if a < p { a } else { a - 1 };
                    let y = if b < p { b } else { b - 1 };
                    if a == p {
                        assert(after[b] == before[b - 1]);
                    } else if b == p {
                        assert(after[a] == before[a]);
                    } else {
                        assert(after[a] == before[x]);
                        assert(after[b] == before[y]);
                        assert(finding_lt(before[x], before[y]));
                    }
                }
                assert(tn == ti.push(f));
                assert forall|g: FindingView| #[trigger]
                    after.contains(g) <==> tn.contains(g) by {
                    if after.contains(g) {
                        let k = choose|k: int| 0 <= k < after.len() && after[k] == g;
                        if k < p {
                            assert(before[k] == g);
                            assert(before.contains(g));
                        } else if k > p {
                            assert(before[k - 1] == g);
                            assert(before.contains(g));
                        }
                        if g != f {
                            assert(ti.contains(g));
                            let m = choose|m: int| 0 <= m < ti.len() && ti[m] == g;
                            assert(tn[m] == g);
                        } else {
                            assert(tn[i as int] == g);
                        }
                    }
                    if tn.contains(g) {
                        let m = choose|m: int| 0 <= m < tn.len() && tn[m] == g;
                        if m < i {
                            assert(ti[m] == g);
                            assert(ti.contains(g));
                            assert(before.contains(g));
                            let k = choose|k: int| 0 <= k < before.len() && before[k] == g;
                            if k < p {
                                assert(after[k] == g);
                            } else {
                                assert(after[k + 1] == g);
                            }
                        } else {
                            assert(after[p as int] == g);
                        }
                    }
                }
            }
            i += 1;
        }
        proof {
            assert(all.take(i as int) == all);
            assert forall|f: FindingView| #[trigger] views(out@).contains(f) <==> self@.contains(
                f,
            ) by {
                assert(views(out@).contains(f) <==> all.contains(f));
            }
        }
        out
    }
}

} // verus!
