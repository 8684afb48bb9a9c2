//! The scan as a state machine over mathematical values, and what holds of
//! every state it can reach.
//!
//! One task stands for one wordlist entry. A task is pending until it is
//! started; from then on it holds a permit and probes its URLs one after the
//! other; when the last of them has been classified it is done and its
//! permit is free again. The scan starts tasks in the order of the wordlist,
//! and only while fewer tasks are probing than the configuration allows.

use vstd::prelude::*;
use crate::findings::{is_report_of, lemma_report_unique, FindingView};
use crate::status::accepts_spec;
use crate::urls::{variants, lemma_variants};

verus! {

/// One probe that has been classified: the URL, and the status code it
/// answered or `None` where the request failed.
pub type Probe = (Seq<char>, Option<u16>);

/// Where a task stands.
#[derive(Clone, Copy, Debug, PartialEq, Eq, Structural)]
pub enum TaskPhase {
    /// Not started; it holds no permit.
    Pending,
    /// Started, with URLs left to probe; it holds a permit.
    Requesting,
    /// All its URLs are classified; its permit is released.
    Done,
}

/// A started task: its URLs and how many of them have been classified.
pub struct TaskModel {
    pub urls: Seq<Seq<char>>,
    pub probed: nat,
}

impl TaskModel {
    /// Whether the task still has a URL to probe, and so holds a permit.
    pub open spec fn requesting(self) -> bool {
        self.probed < self.urls.len()
    }
}

/// The number of tasks of `tasks` that hold a permit.
pub open spec fn active_count(tasks: Seq<TaskModel>) -> nat
    decreases tasks.len(),
{
    if tasks.len() == 0 {
        0
    } else {
        active_count(tasks.drop_last()) + if tasks.last().requesting() {
            1nat
        } else {
            0nat
        }
    }
}

/// The number of URLs that the tasks of `tasks` have classified.
pub open spec fn probed_sum(tasks: Seq<TaskModel>) -> nat
    decreases tasks.len(),
{
    if tasks.len() == 0 {
        0
    } else {
        probed_sum(tasks.drop_last()) + tasks.last().probed
    }
}

/// The findings that a log of probes gives under a filter: the URLs that
/// answered, with a status code that the filter accepts.
pub open spec fn accepted(log: Seq<Probe>, filter: Seq<u16>) -> Set<FindingView> {
    Set::new(|f: FindingView| log.contains((f.0, Some(f.1))) && accepts_spec(filter, f.1))
}

/// Whether `k` is the place of a URL that task `i` has classified.
pub open spec fn task_probed(tasks: Seq<TaskModel>, i: int, k: int) -> bool {
    0 <= i < tasks.len() && 0 <= k < tasks[i].probed && k < tasks[i].urls.len()
}

/// The URLs that the tasks of `tasks` have classified.
pub open spec fn probed_urls(tasks: Seq<TaskModel>) -> Set<Seq<char>> {
    Set::new(
        |u: Seq<char>|
            exists|i: int, k: int| #[trigger] task_probed(tasks, i, k) && tasks[i].urls[k] == u,
    )
}

/// Whether the log holds a probe of `url` at `j`.
pub open spec fn logged_at(log: Seq<Probe>, j: int, url: Seq<char>) -> bool {
    0 <= j < log.len() && log[j].0 == url
}

/// The URLs of which the log holds a probe.
pub open spec fn logged_urls(log: Seq<Probe>) -> Set<Seq<char>> {
    Set::new(|u: Seq<char>| exists|j: int| #[trigger] logged_at(log, j, u))
}

/// Whether every probe of the log has the outcome that `server` gives for
/// its URL: the status code, or `None` for a request that fails.
pub open spec fn answered_by(log: Seq<Probe>, server: spec_fn(Seq<char>) -> Option<u16>) -> bool {
    forall|j: int| 0 <= j < log.len() ==> (#[trigger] log[j]).1 == server(log[j].0)
}

/// The state of a scan.
pub struct ScanModel {
    /// The number of permits.
    pub threads: nat,
    /// The status filter.
    pub filter: Seq<u16>,
    /// The base URL.
    pub base: Seq<char>,
    /// The extensions.
    pub extensions: Seq<Seq<char>>,
    /// The wordlist.
    pub candidates: Seq<Seq<char>>,
    /// The started tasks: `tasks[i]` is the task of `candidates[i]`.
    pub tasks: Seq<TaskModel>,
    /// The findings so far.
    pub findings: Set<FindingView>,
    /// The probes classified so far, in the order in which they came in.
    pub log: Seq<Probe>,
}

impl ScanModel {
    /// The state before anything has been started.
    pub open spec fn initial(
        threads: nat,
        filter: Seq<u16>,
        base: Seq<char>,
        extensions: Seq<Seq<char>>,
        candidates: Seq<Seq<char>>,
    ) -> ScanModel {
        ScanModel {
            threads,
            filter,
            base,
            extensions,
            candidates,
            tasks: Seq::empty(),
            findings: Set::empty(),
            log: Seq::empty(),
        }
    }

    /// The number of tasks that hold a permit.
    pub open spec fn active(self) -> nat {
        active_count(self.tasks)
    }

    /// The number of probes classified so far.
    pub open spec fn progress(self) -> nat {
        probed_sum(self.tasks)
    }

    /// The number of probes of the whole scan where no two variants of an
    /// entry fall together.
    pub open spec fn total_units(self) -> nat {
        self.candidates.len() * (2 + 2 * self.extensions.len())
    }

    /// Where the task of the wordlist entry `task` stands.
    pub open spec fn phase(self, task: int) -> TaskPhase {
        if !(0 <= task < self.tasks.len()) {
            TaskPhase::Pending
        } else if self.tasks[task].requesting() {
            TaskPhase::Requesting
        } else {
            TaskPhase::Done
        }
    }

    /// What holds of every state of a scan: the tasks are those of the
    /// first entries of the wordlist, each with the variants of its entry;
    /// no more tasks hold a permit than there are permits; the findings are
    /// those that the log gives; and the log holds one probe for each URL
    /// that a task has classified, and of no other URL.
    pub open spec fn inv(self) -> bool {
        &&& self.threads >= 1
        &&& self.tasks.len() <= self.candidates.len()
        &&& forall|i: int|
            0 <= i < self.tasks.len() ==> (#[trigger] self.tasks[i]).urls == variants(
                self.base,
                self.candidates[i],
                self.extensions,
            ) && self.tasks[i].probed <= self.tasks[i].urls.len()
        &&& self.active() <= self.threads
        &&& self.findings == accepted(self.log, self.filter)
        &&& self.log.len() == self.progress()
        &&& logged_urls(self.log) == probed_urls(self.tasks)
    }

    /// Whether the next task can be started: an entry is left and a permit
    /// is free.
    pub open spec fn can_start(self) -> bool {
        self.tasks.len() < self.candidates.len() && self.active() < self.threads
    }

    /// Whether the scan is over: every entry has its task and no task holds
    /// a permit.
    pub open spec fn finished(self) -> bool {
        self.tasks.len() == self.candidates.len() && self.active() == 0
    }

    /// The URLs of the next task to start.
    pub open spec fn next_urls(self) -> Seq<Seq<char>> {
        variants(self.base, self.candidates[self.tasks.len() as int], self.extensions)
    }

    /// The state after the next task has been started.
    pub open spec fn start(self) -> ScanModel {
        ScanModel {
            tasks: self.tasks.push(TaskModel { urls: self.next_urls(), probed: 0 }),
            ..self
        }
    }

    /// Whether an outcome is due from `task`.
    pub open spec fn expects(self, task: int) -> bool {
        0 <= task < self.tasks.len() && self.tasks[task].requesting()
    }

    /// The URL that `task` probes next.
    pub open spec fn next_url(self, task: int) -> Seq<char> {
        self.tasks[task].urls[self.tasks[task].probed as int]
    }

    /// The state after `task` has had the outcome of its next URL
    /// classified: `status` is the status code, or `None` for a failed
    /// request.
    pub open spec fn record(self, task: int, status: Option<u16>) -> ScanModel {
        let url = self.next_url(task);
        ScanModel {
            tasks: self.tasks.update(
                task,
                TaskModel { urls: self.tasks[task].urls, probed: self.tasks[task].probed + 1 },
            ),
            findings: match status {
                Some(s) => if accepts_spec(self.filter, s) {
                    self.findings.insert((url, s))
                } else {
                    self.findings
                },
                None => self.findings,
            },
            log: self.log.push((url, status)),
            ..self
        }
    }
}

/// Counting after one more task.
pub proof fn lemma_counts_push(tasks: Seq<TaskModel>, t: TaskModel)
    ensures
        active_count(tasks.push(t)) == active_count(tasks) + if t.requesting() {
            1nat
        } else {
            0nat
        },
        probed_sum(tasks.push(t)) == probed_sum(tasks) + t.probed,
{
    assert(tasks.push(t).drop_last() == tasks);
}

/// Counting after one task has changed.
pub proof fn lemma_counts_update(tasks: Seq<TaskModel>, i: int, t: TaskModel)
    requires
        0 <= i < tasks.len(),
    ensures
        active_count(tasks.update(i, t)) + (if tasks[i].requesting() {
            1nat
        } else {
            0nat
        }) == active_count(tasks) + (if t.requesting() {
            1nat
        } else {
            0nat
        }),
        probed_sum(tasks.update(i, t)) + tasks[i].probed == probed_sum(tasks) + t.probed,
    decreases tasks.len(),
{
    if i == tasks.len() - 1 {
        assert(tasks.update(i, t).drop_last() == tasks.drop_last());
    } else {
        lemma_counts_update(tasks.drop_last(), i, t);
        assert(tasks.update(i, t).drop_last() == tasks.drop_last().update(i, t));
    }
}

/// Tasks that have each classified at most `m` URLs have classified at most
/// `m` times their number.
pub proof fn lemma_probed_bound(tasks: Seq<TaskModel>, m: nat)
    requires
        forall|i: int| 0 <= i < tasks.len() ==> (#[trigger] tasks[i]).probed <= m,
    ensures
        probed_sum(tasks) <= tasks.len() * m,
    decreases tasks.len(),
{
    if tasks.len() > 0 {
        let p = tasks.drop_last();
        assert forall|i: int| 0 <= i < p.len() implies (#[trigger] p[i]).probed <= m by {
            assert(p[i] == tasks[i]);
        }
        lemma_probed_bound(p, m);
        assert(p.len() * m + m == tasks.len() * m) by (nonlinear_arith)
            requires
                p.len() + 1 == tasks.len(),
        ;
    }
}

/// Where no task holds a permit every started task has classified all its
/// URLs.
pub proof fn lemma_idle_all_done(tasks: Seq<TaskModel>, i: int)
    requires
        active_count(tasks) == 0,
        0 <= i < tasks.len(),
    ensures
        !tasks[i].requesting(),
    decreases tasks.len(),
{
    if i < tasks.len() - 1 {
        lemma_idle_all_done(tasks.drop_last(), i);
    }
}

/// What one more probe adds to the findings of a log.
pub proof fn lemma_accepted_push(
    log: Seq<Probe>,
    filter: Seq<u16>,
    url: Seq<char>,
    status: Option<u16>,
)
    ensures
        accepted(log.push((url, status)), filter) == match status {
            Some(s) => if accepts_spec(filter, s) {
                accepted(log, filter).insert((url, s))
            } else {
                accepted(log, filter)
            },
            None => accepted(log, filter),
        },
{
    let grown = log.push((url, status));
    let rhs = match status {
        Some(s) => if accepts_spec(filter, s) {
            accepted(log, filter).insert((url, s))
        } else {
            accepted(log, filter)
        },
        None => accepted(log, filter),
    };
    assert forall|f: FindingView| accepted(grown, filter).contains(f) <==> rhs.contains(f) by {
        let e: Probe = (f.0, Some(f.1));
        if grown.contains(e) {
            let k = choose|k: int| 0 <= k < grown.len() && grown[k] == e;
            if k < log.len() {
                assert(log[k] == e);
            }
        }
        if log.contains(e) {
            let k = choose|k: int| 0 <= k < log.len() && log[k] == e;
            assert(grown[k] == e);
        }
        if e == (url, status) {
            assert(grown[log.len() as int] == e);
        }
    }
    assert(accepted(grown, filter) == rhs);
}

/// The first state of a scan has the invariant.
pub proof fn lemma_initial_inv(
    threads: nat,
    filter: Seq<u16>,
    base: Seq<char>,
    extensions: Seq<Seq<char>>,
    candidates: Seq<Seq<char>>,
)
    requires
        threads >= 1,
    ensures
        ScanModel::initial(threads, filter, base, extensions, candidates).inv(),
        ScanModel::initial(threads, filter, base, extensions, candidates).active() == 0,
        ScanModel::initial(threads, filter, base, extensions, candidates).progress() == 0,
{
    let m = ScanModel::initial(threads, filter, base, extensions, candidates);
    assert(m.findings == accepted(m.log, m.filter));
    assert forall|u: Seq<char>| logged_urls(m.log).contains(u) <==> probed_urls(
        m.tasks,
    ).contains(u) by {
        assert(forall|j: int| !logged_at(m.log, j, u));
        assert(forall|i: int, k: int| !task_probed(m.tasks, i, k));
    }
    assert(logged_urls(m.log) == probed_urls(m.tasks));
}

/// Starting a task keeps the invariant, and the task holds one permit more.
pub proof fn lemma_start_inv(m: ScanModel)
    requires
        m.inv(),
        m.can_start(),
    ensures
        m.start().inv(),
        m.start().active() == m.active() + 1,
        m.start().progress() == m.progress(),
        m.start().phase(m.tasks.len() as int) == TaskPhase::Requesting,
{
    let t = TaskModel { urls: m.next_urls(), probed: 0 };
    lemma_counts_push(m.tasks, t);
    lemma_variants(m.base, m.candidates[m.tasks.len() as int], m.extensions);
    let n = m.start();
    assert forall|i: int| 0 <= i < n.tasks.len() implies (#[trigger] n.tasks[i]).urls == variants(
        n.base,
        n.candidates[i],
        n.extensions,
    ) && n.tasks[i].probed <= n.tasks[i].urls.len() by {
        if i < m.tasks.len() {
            assert(n.tasks[i] == m.tasks[i]);
        }
    }
    assert forall|u: Seq<char>| probed_urls(n.tasks).contains(u) <==> probed_urls(
        m.tasks,
    ).contains(u) by {
        if probed_urls(n.tasks).contains(u) {
            let (i, k) = choose|i: int, k: int| #[trigger]
                task_probed(n.tasks, i, k) && n.tasks[i].urls[k] == u;
            assert(n.tasks[i] == m.tasks[i]);
            assert(task_probed(m.tasks, i, k) && m.tasks[i].urls[k] == u);
        }
        if probed_urls(m.tasks).contains(u) {
            let (i, k) = choose|i: int, k: int| #[trigger]
                task_probed(m.tasks, i, k) && m.tasks[i].urls[k] == u;
            assert(n.tasks[i] == m.tasks[i]);
            assert(task_probed(n.tasks, i, k) && n.tasks[i].urls[k] == u);
        }
    }
    assert(probed_urls(n.tasks) == probed_urls(m.tasks));
}

/// Classifying an outcome keeps the invariant; the task keeps its permit
/// exactly while it has URLs left.
pub proof fn lemma_record_inv(m: ScanModel, task: int, status: Option<u16>)
    requires
        m.inv(),
        m.expects(task),
    ensures
        m.record(task, status).inv(),
        m.record(task, status).progress() == m.progress() + 1,
        m.record(task, status).active() == if m.tasks[task].probed + 1 < m.tasks[task].urls.len() {
            m.active()
        } else {
            (m.active() - 1) as nat
        },
        m.active() >= 1,
{
    let old_task = m.tasks[task];
    let t = TaskModel { urls: old_task.urls, probed: old_task.probed + 1 };
    lemma_counts_update(m.tasks, task, t);
    if m.active() == 0 {
        lemma_idle_all_done(m.tasks, task);
    }
    lemma_accepted_push(m.log, m.filter, m.next_url(task), status);
    let n = m.record(task, status);
    assert(n.tasks == m.tasks.update(task, t));
    assert forall|i: int| 0 <= i < n.tasks.len() implies (#[trigger] n.tasks[i]).urls == variants(
        n.base,
        n.candidates[i],
        n.extensions,
    ) && n.tasks[i].probed <= n.tasks[i].urls.len() by {
        if i != task {
            assert(n.tasks[i] == m.tasks[i]);
        } else {
            assert(m.tasks[task].urls == variants(m.base, m.candidates[task], m.extensions));
        }
    }
    let url = m.next_url(task);
    let p = old_task.probed as int;
    assert forall|u: Seq<char>| logged_urls(n.log).contains(u) <==> probed_urls(
        n.tasks,
    ).contains(u) by {
        if logged_urls(n.log).contains(u) {
            let j = choose|j: int| #[trigger] logged_at(n.log, j, u);
            if j < m.log.len() {
                assert(logged_at(m.log, j, u));
                assert(logged_urls(m.log).contains(u));
                assert(probed_urls(m.tasks).contains(u));
                let (i, k) = choose|i: int, k: int| #[trigger]
                    task_probed(m.tasks, i, k) && m.tasks[i].urls[k] == u;
                assert(task_probed(n.tasks, i, k) && n.tasks[i].urls[k] == u);
            } else {
                assert(task_probed(n.tasks, task, p) && n.tasks[task].urls[p] == u);
            }
        }
        if probed_urls(n.tasks).contains(u) {
            let (i, k) = choose|i: int, k: int| #[trigger]
                task_probed(n.tasks, i, k) && n.tasks[i].urls[k] == u;
            if i == task && k == p {
                assert(logged_at(n.log, m.log.len() as int, u));
            } else {
                assert(task_probed(m.tasks, i, k) && m.tasks[i].urls[k] == u);
                assert(probed_urls(m.tasks).contains(u));
                assert(logged_urls(m.log).contains(u));
                let j = choose|j: int| #[trigger] logged_at(m.log, j, u);
                assert(logged_at(n.log, j, u));
            }
        }
    }
    assert(logged_urls(n.log) == probed_urls(n.tasks));
}

/// Permit conservation: in every state of a scan no more tasks are probing
/// than the configured number.
pub proof fn lemma_permits_conserved(m: ScanModel)
    requires
        m.inv(),
    ensures
        m.active() <= m.threads,
{
}

/// At the end of a scan every entry has had each of its variants probed
/// once: every task is done.
pub proof fn lemma_finished_all_done(m: ScanModel, task: int)
    requires
        m.inv(),
        m.finished(),
        0 <= task < m.candidates.len(),
    ensures
        m.phase(task) == TaskPhase::Done,
        m.tasks[task].probed == variants(m.base, m.candidates[task], m.extensions).len(),
{
    lemma_idle_all_done(m.tasks, task);
}

/// The number of probes never exceeds the number of units of the scan.
pub proof fn lemma_progress_bound(m: ScanModel)
    requires
        m.inv(),
    ensures
        m.progress() <= m.total_units(),
{
    let k = (2 + 2 * m.extensions.len()) as nat;
    assert forall|i: int| 0 <= i < m.tasks.len() implies (#[trigger] m.tasks[i]).probed <= k by {
        lemma_variants(m.base, m.candidates[i], m.extensions);
    }
    lemma_probed_bound(m.tasks, k);
    assert(m.tasks.len() * k <= m.candidates.len() * k) by (nonlinear_arith)
        requires
            m.tasks.len() <= m.candidates.len(),
    ;
}

/// Order independence: two scans under one filter whose logs hold the same
/// probes, in whatever order they came in, have the same findings.
pub proof fn lemma_findings_order_independent(a: ScanModel, b: ScanModel)
    requires
        a.inv(),
        b.inv(),
        a.filter == b.filter,
        a.log.to_set() == b.log.to_set(),
    ensures
        a.findings == b.findings,
{
    assert forall|f: FindingView| a.findings.contains(f) <==> b.findings.contains(f) by {
        let e: Probe = (f.0, Some(f.1));
        assert(a.log.contains(e) <==> a.log.to_set().contains(e));
        assert(b.log.contains(e) <==> b.log.to_set().contains(e));
    }
    assert(a.findings == b.findings);
}

/// Two scans of one wordlist under one configuration that have come to
/// their end against a server that answers every URL in one way have the
/// same findings, whatever the order in which their tasks ran.
pub proof fn lemma_finished_scans_agree(
    a: ScanModel,
    b: ScanModel,
    server: spec_fn(Seq<char>) -> Option<u16>,
)
    requires
        a.inv(),
        b.inv(),
        a.finished(),
        b.finished(),
        a.filter == b.filter,
        a.base == b.base,
        a.extensions == b.extensions,
        a.candidates == b.candidates,
        answered_by(a.log, server),
        answered_by(b.log, server),
    ensures
        a.log.to_set() == b.log.to_set(),
        a.findings == b.findings,
{
    lemma_logs_agree(a, b, server);
    lemma_logs_agree(b, a, server);
    assert(a.log.to_set() =~= b.log.to_set());
    lemma_findings_order_independent(a, b);
}

proof fn lemma_logs_agree(a: ScanModel, b: ScanModel, server: spec_fn(Seq<char>) -> Option<u16>)
    requires
        a.inv(),
        b.inv(),
        a.finished(),
        b.finished(),
        a.base == b.base,
        a.extensions == b.extensions,
        a.candidates == b.candidates,
        answered_by(a.log, server),
        answered_by(b.log, server),
    ensures
        forall|e: Probe| a.log.contains(e) ==> b.log.contains(e),
{
    assert forall|e: Probe| a.log.contains(e) implies b.log.contains(e) by {
        let j = choose|j: int| 0 <= j < a.log.len() && a.log[j] == e;
        assert(logged_at(a.log, j, e.0));
        assert(logged_urls(a.log).contains(e.0));
        assert(probed_urls(a.tasks).contains(e.0));
        let (i, k) = choose|i: int, k: int| #[trigger]
            task_probed(a.tasks, i, k) && a.tasks[i].urls[k] == e.0;
        lemma_idle_all_done(b.tasks, i);
        assert(b.tasks[i].urls == a.tasks[i].urls);
        assert(task_probed(b.tasks, i, k) && b.tasks[i].urls[k] == e.0);
        assert(probed_urls(b.tasks).contains(e.0));
        assert(logged_urls(b.log).contains(e.0));
        let h = choose|h: int| #[trigger] logged_at(b.log, h, e.0);
        assert(b.log[h].1 == server(b.log[h].0));
        assert(a.log[j].1 == server(a.log[j].0));
        assert(b.log[h] == e);
    }
}

/// Order-independent report: two scans under one filter whose logs hold the
/// same probes have the same report, whatever the order in which their
/// tasks ran and their outcomes came in.
pub proof fn lemma_report_order_independent(
    a: ScanModel,
    b: ScanModel,
    report_a: Seq<FindingView>,
    report_b: Seq<FindingView>,
)
    requires
        a.inv(),
        b.inv(),
        a.filter == b.filter,
        a.log.to_set() == b.log.to_set(),
        is_report_of(report_a, a.findings),
        is_report_of(report_b, b.findings),
    ensures
        report_a == report_b,
{
    lemma_findings_order_independent(a, b);
    lemma_report_unique(report_a, report_b);
}

/// The report of a scan is reproducible: two scans of one wordlist under
/// one configuration, each run to its end against a server that answers
/// every URL in one way, have the same report, whatever the order in which
/// their tasks ran and their outcomes came in.
pub proof fn lemma_finished_reports_agree(
    a: ScanModel,
    b: ScanModel,
    server: spec_fn(Seq<char>) -> Option<u16>,
    report_a: Seq<FindingView>,
    report_b: Seq<FindingView>,
)
    requires
        a.inv(),
        b.inv(),
        a.finished(),
        b.finished(),
        a.filter == b.filter,
        a.base == b.base,
        a.extensions == b.extensions,
        a.candidates == b.candidates,
        answered_by(a.log, server),
        answered_by(b.log, server),
        is_report_of(report_a, a.findings),
        is_report_of(report_b, b.findings),
    ensures
        report_a == report_b,
{
    lemma_finished_scans_agree(a, b, server);
    lemma_report_unique(report_a, report_b);
}

} // verus!
