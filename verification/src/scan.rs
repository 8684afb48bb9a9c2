//! Scan orchestrator: decides which task starts when, classifies the outcome
//! of every probe, and builds the report.
//!
//! The orchestrator does no I/O. Its caller asks it what to do next, starts
//! the task it names or waits for an outcome, and hands every outcome back.
//! Whatever the order in which outcomes come in, the orchestrator keeps to
//! the state machine of the model: it never lets more tasks probe than the
//! configuration allows, it counts every probe once, and its findings are
//! those that the probes give under the status filter.

use vstd::prelude::*;
use crate::config::ScanConfig;
use crate::findings::{is_report_of, views, Aggregator, FindingRecord, FindingView};
use crate::limiter::Limiter;
use crate::model::{
    lemma_initial_inv,
    lemma_progress_bound,
    lemma_record_inv,
    lemma_start_inv,
    ScanModel,
    TaskModel,
    TaskPhase,
};
use crate::status::{accepts, accepts_spec, classify, classify_spec, StatusClass};
use crate::urls::{generate_urls, texts};

verus! {

/// The result of one request.
#[derive(Debug, PartialEq, Eq)]
pub enum ProbeOutcome {
    /// The server answered with this status code.
    Status(u16),
    /// The request failed; the text says how.
    Failed(String),
}

impl ProbeOutcome {
    /// The status code of the outcome, or `None` for a failed request.
    pub open spec fn status(self) -> Option<u16> {
        match self {
            ProbeOutcome::Status(s) => Some(s),
            ProbeOutcome::Failed(_) => None,
        }
    }
}

/// What is to be shown for one classified probe.
#[derive(Debug, PartialEq, Eq)]
pub enum Notice {
    /// A finding, to be shown with the class of its status code.
    Found { url: String, status: u16, class: StatusClass },
    /// A failed request, to be shown with its reason.
    Failed { url: String, reason: String },
    /// Nothing is shown.
    Quiet,
}

/// Whether `n` is the notice for the outcome `outcome` of `url`: a finding
/// is shown unless the scan is silent, a failed request only where it is
/// verbose, and a status code that the filter turns down never.
pub open spec fn notice_for(
    n: Notice,
    url: Seq<char>,
    outcome: ProbeOutcome,
    filter: Seq<u16>,
    verbose: bool,
    silent: bool,
) -> bool {
    match outcome {
        ProbeOutcome::Status(s) => if accepts_spec(filter, s) && !silent {
            n matches Notice::Found { url: u, status, class } && u@ == url && status == s && class
                == classify_spec(s)
        } else {
            n is Quiet
        },
        ProbeOutcome::Failed(reason) => if verbose {
            n matches Notice::Failed { url: u, reason: r } && u@ == url && r@ == reason@
        } else {
            n is Quiet
        },
    }
}

/// What the caller is to do next.
#[derive(Debug, PartialEq, Eq)]
pub enum Action {
    /// Start the task of the wordlist entry `task`: probe `urls` one after
    /// the other and hand each outcome back.
    Start { task: usize, urls: Vec<String> },
    /// Wait for the next outcome of a running task and hand it back.
    Wait,
    /// Every task is done: ask for the result.
    Finish,
}

/// A fault in how the orchestrator is driven.
#[derive(Clone, Copy, Debug, PartialEq, Eq, Structural)]
pub enum ScanError {
    /// An outcome came for a task from which none was due.
    UnexpectedOutcome,
    /// The result was asked for while tasks were pending or running.
    Unfinished,
}

/// The report of a scan: either the findings in order, or the word that
/// there are none.
#[derive(Debug, PartialEq, Eq)]
pub enum Report {
    NoFindings,
    Findings(Vec<FindingRecord>),
}

/// The final state of a scan: the report and the time the scan took.
#[derive(Debug, PartialEq, Eq)]
pub struct ScanResult {
    pub report: Report,
    pub elapsed_millis: u64,
}

/// Whether `r` reports the set `found`: `NoFindings` for the empty set, and
/// for any other set its findings in the order of the report.
pub open spec fn report_of(r: Report, found: Set<FindingView>) -> bool {
    match r {
        Report::NoFindings => found == Set::<FindingView>::empty(),
        Report::Findings(v) => v.len() > 0 && is_report_of(views(v@), found),
    }
}

/// The number of probes of a scan of `candidates` entries with `extensions`
/// extensions where no two variants of an entry fall together: two for
/// every entry, and two more for every entry and extension.
pub open spec fn units(candidates: nat, extensions: nat) -> nat {
    candidates * (2 + 2 * extensions)
}

/// The number of probes of a scan of `candidates` entries with `extensions`
/// extensions, or `None` where the number cannot be counted.
pub fn checked_units(candidates: usize, extensions: usize) -> (r: Option<usize>)
    ensures
        r == if units(candidates as nat, extensions as nat) <= usize::MAX {
            Some(units(candidates as nat, extensions as nat) as usize)
        } else {
            None
        },
{
    if candidates == 0 {
        assert(units(0, extensions as nat) == 0) by (nonlinear_arith);
        return Some(0);
    }
    assert(units(candidates as nat, extensions as nat) >= 2 + 2 * extensions) by (nonlinear_arith)
        requires
            candidates >= 1,
    ;
    match extensions.checked_mul(2) {
        None => None,
        Some(doubled) => match doubled.checked_add(2) {
            None => None,
            Some(each) => candidates.checked_mul(each),
        },
    }
}

/// The state of one scan. The entries of the wordlist are taken as they
/// are: white space at the ends of an entry is part of its path.
pub struct Scan {
    config: ScanConfig,
    candidates: Vec<String>,
    urls: Vec<Vec<String>>,
    probed: Vec<usize>,
    limiter: Limiter,
    findings: Aggregator,
    progress: usize,
    log: Ghost<Seq<(Seq<char>, Option<u16>)>>,
}

impl View for Scan {
    type V = ScanModel;

    closed spec fn view(&self) -> ScanModel {
        ScanModel {
            threads: self.config.threads as nat,
            filter: self.config.status_codes@,
            base: self.config.url@,
            extensions: texts(self.config.extensions@),
            candidates: texts(self.candidates@),
            tasks: Seq::new(
                self.urls@.len(),
                |i: int| TaskModel { urls: texts(self.urls@[i]@), probed: self.probed@[i] as nat },
            ),
            findings: self.findings@,
            log: self.log@,
        }
    }
}

fn copy_texts(v: &Vec<String>) -> (r: Vec<String>)
    ensures
        texts(r@) == texts(v@),
{
    let mut out: Vec<String> = Vec::new();
    let mut i: usize = 0;
    while i < v.len()
        invariant
            i <= v.len(),
            texts(out@) == texts(v@).take(i as int),
        decreases v.len() - i,
    {
        let ghost prev = texts(out@);
        out.push(v[i].clone());
        assert(texts(out@) == prev.push(v@[i as int]@));
        assert(texts(v@).take(i + 1) == texts(v@).take(i as int).push(v@[i as int]@));
        i += 1;
    }
    assert(texts(v@).take(i as int) == texts(v@));
    out
}

impl Scan {
    /// The configuration of the scan.
    pub closed spec fn config(&self) -> ScanConfig {
        self.config
    }

    /// The invariant of the orchestrator: its counters agree with the model,
    /// and the model has the invariant of the state machine.
    pub closed spec fn wf(&self) -> bool {
        &&& self.urls.len() == self.probed.len()
        &&& self.findings.wf()
        &&& self.limiter.capacity() == self.config.threads
        &&& self.limiter.in_use() == self@.active()
        &&& self.progress == self@.progress()
        &&& self@.total_units() <= usize::MAX
        &&& self@.inv()
    }

    /// What a well-formed orchestrator stands for: a state that has the
    /// invariant of the state machine, made from its configuration.
    pub proof fn lemma_wf(&self)
        requires
            self.wf(),
        ensures
            self@.inv(),
            self@.active() <= self@.threads,
            self@.progress() <= self@.total_units() <= usize::MAX,
            self@.threads == self.config().threads,
            self@.filter == self.config().status_codes@,
            self@.base == self.config().url@,
            self@.extensions == texts(self.config().extensions@),
    {
        lemma_progress_bound(self@);
    }

    /// A scan of `candidates` under `config`, with nothing started.
    pub fn new(config: ScanConfig, candidates: Vec<String>) -> (r: Scan)
        requires
            config.threads >= 1,
            candidates.len() * (2 + 2 * config.extensions.len()) <= usize::MAX,
        ensures
            r.wf(),
            r.config() == config,
            r@ == ScanModel::initial(
                config.threads as nat,
                config.status_codes@,
                config.url@,
                texts(config.extensions@),
                texts(candidates@),
            ),
    {
        let limiter = Limiter::new(config.threads);
        let ghost start = ScanModel::initial(
            config.threads as nat,
            config.status_codes@,
            config.url@,
            texts(config.extensions@),
            texts(candidates@),
        );
        let r = Scan {
            config,
            candidates,
            urls: Vec::new(),
            probed: Vec::new(),
            limiter,
            findings: Aggregator::new(),
            progress: 0,
            log: Ghost(Seq::empty()),
        };
        proof {
            lemma_initial_inv(
                start.threads,
                start.filter,
                start.base,
                start.extensions,
                start.candidates,
            );
            assert(r@.tasks =~= start.tasks);
            assert(r@ == start);
        }
        r
    }

    /// The number of probes of the whole scan where no two variants of an
    /// entry fall together: the length of the progress display.
    pub fn total_units(&self) -> (r: usize)
        requires
            self.wf(),
        ensures
            r == self@.total_units(),
    {
        let c = self.candidates.len();
        let e = self.config.extensions.len();
        if c == 0 {
            assert(0 * (2 + 2 * e) == 0) by (nonlinear_arith);
            return 0;
        }
        assert(2 + 2 * e <= c * (2 + 2 * e)) by (nonlinear_arith)
            requires
                c >= 1,
        ;
        c * (2 + 2 * e)
    }

    /// The number of probes classified so far.
    pub fn progress(&self) -> (r: usize)
        requires
            self.wf(),
        ensures
            r == self@.progress(),
            r <= self@.total_units(),
    {
        proof {
            lemma_progress_bound(self@);
        }
        self.progress
    }

    /// The number of tasks that are probing.
    pub fn active(&self) -> (r: usize)
        requires
            self.wf(),
        ensures
            r == self@.active(),
            r <= self.config().threads,
    {
        self.limiter.held()
    }

    /// The number of tasks that have been started.
    pub fn started(&self) -> (r: usize)
        requires
            self.wf(),
        ensures
            r == self@.tasks.len(),
            r <= self@.candidates.len(),
    {
        self.urls.len()
    }

    /// Where the task of the wordlist entry `task` stands.
    pub fn phase(&self, task: usize) -> (r: TaskPhase)
        requires
            self.wf(),
        ensures
            r == self@.phase(task as int),
    {
        if task >= self.urls.len() {
            TaskPhase::Pending
        } else if self.probed[task] < self.urls[task].len() {
            TaskPhase::Requesting
        } else {
            TaskPhase::Done
        }
    }

    /// Whether every task is done.
    pub fn is_finished(&self) -> (r: bool)
        requires
            self.wf(),
        ensures
            r == self@.finished(),
    {
        self.urls.len() == self.candidates.len() && self.limiter.held() == 0
    }

    /// The number of findings so far.
    pub fn finding_count(&self) -> (r: usize)
        requires
            self.wf(),
        ensures
            r == self@.findings.len(),
    {
        self.findings.len()
    }

    /// Says what to do next. Where an entry is left and a permit is free the
    /// next task is started and takes the permit; where all tasks are done
    /// the scan is over; otherwise an outcome has to come in first.
    pub fn next_action(&mut self) -> (r: Action)
        requires
            old(self).wf(),
        ensures
            final(self).wf(),
            final(self).config() == old(self).config(),
            old(self)@.can_start() ==> final(self)@ == old(self)@.start() && (r matches Action::Start {
                task,
                urls,
            } && task == old(self)@.tasks.len() && texts(urls@) == old(self)@.next_urls()),
            !old(self)@.can_start() ==> final(self)@ == old(self)@,
            !old(self)@.can_start() && old(self)@.finished() ==> r is Finish,
            !old(self)@.can_start() && !old(self)@.finished() ==> r is Wait,
    {
        let ghost before = self@;
        if self.urls.len() < self.candidates.len() {
            if self.limiter.try_acquire() {
                let task = self.urls.len();
                let urls = generate_urls(
                    self.config.url.as_str(),
                    self.candidates[task].as_str(),
                    self.config.extensions.as_slice(),
                );
                let copy = copy_texts(&urls);
                assert(texts(self.candidates@)[task as int] == self.candidates@[task as int]@);
                assert(texts(urls@) == before.next_urls());
                self.urls.push(urls);
                self.probed.push(0);
                proof {
                    lemma_start_inv(before);
                    assert(self@.tasks =~= before.start().tasks);
                    assert(self@ == before.start());
                }
                return Action::Start { task, urls: copy };
            }
        }
        assert(self@.tasks =~= before.tasks);
        assert(self@ == before);
        if self.limiter.held() > 0 {
            Action::Wait
        } else {
            Action::Finish
        }
    }

    /// Classifies the outcome of the next URL of `task`: counts the probe,
    /// records the finding where the status code passes the filter, and
    /// frees the permit of the task when this was its last URL. An outcome
    /// for a task from which none is due changes nothing and is an error.
    pub fn record_outcome(&mut self, task: usize, outcome: ProbeOutcome) -> (r: Result<
        Notice,
        ScanError,
    >)
        requires
            old(self).wf(),
        ensures
            final(self).wf(),
            final(self).config() == old(self).config(),
            old(self)@.expects(task as int) ==> final(self)@ == old(self)@.record(
                task as int,
                outcome.status(),
            ) && (r matches Ok(n) && notice_for(
                n,
                old(self)@.next_url(task as int),
                outcome,
                old(self)@.filter,
                old(self).config().verbose,
                old(self).config().silent,
            )),
            !old(self)@.expects(task as int) ==> final(self)@ == old(self)@ && r == Err::<
                Notice,
                ScanError,
            >(ScanError::UnexpectedOutcome),
    {
        let ghost before = self@;
        if task >= self.probed.len() {
            return Err(ScanError::UnexpectedOutcome);
        }
        let k = self.probed[task];
        if k >= self.urls[task].len() {
            return Err(ScanError::UnexpectedOutcome);
        }
        let ghost after = before.record(task as int, outcome.status());
        proof {
            lemma_record_inv(before, task as int, outcome.status());
            lemma_progress_bound(after);
        }
        let url = self.urls[task][k].clone();
        assert(url@ == before.next_url(task as int));
        self.probed.set(task, k + 1);
        self.progress = self.progress + 1;
        if k + 1 == self.urls[task].len() {
            let freed = self.limiter.release();
            assert(freed);
        }
        self.log = Ghost(self.log@.push((url@, outcome.status())));
        let notice = match outcome {
            ProbeOutcome::Status(s) => {
                if accepts(self.config.status_codes.as_slice(), s) {
                    self.findings.record(url.as_str(), s);
                    if !self.config.silent {
                        Notice::Found { url, status: s, class: classify(s) }
                    } else {
                        Notice::Quiet
                    }
                } else {
                    Notice::Quiet
                }
            },
            ProbeOutcome::Failed(reason) => {
                if self.config.verbose {
                    Notice::Failed { url, reason }
                } else {
                    Notice::Quiet
                }
            },
        };
        proof {
            assert(self@.tasks =~= after.tasks);
            assert(self@ == after);
        }
        Ok(notice)
    }

    /// Ends the scan: the report of the findings and the time the scan took.
    /// While tasks are pending or running there is no result.
    pub fn finish(self, elapsed_millis: u64) -> (r: Result<ScanResult, ScanError>)
        requires
            self.wf(),
        ensures
            self@.finished() ==> (r matches Ok(res) && res.elapsed_millis == elapsed_millis
                && report_of(res.report, self@.findings) && (res.report is NoFindings
                <==> self@.findings == Set::<FindingView>::empty())),
            !self@.finished() ==> r == Err::<ScanResult, ScanError>(ScanError::Unfinished),
    {
        if !self.is_finished() {
            return Err(ScanError::Unfinished);
        }
        if self.findings.is_empty() {
            Ok(ScanResult { report: Report::NoFindings, elapsed_millis })
        } else {
            let listing = self.findings.sorted();
            proof {
                if listing.len() == 0 {
                    assert forall|f: FindingView| !self.findings@.contains(f) by {
                        assert(!views(listing@).contains(f));
                    }
                    assert(self.findings@ =~= Set::<FindingView>::empty());
                }
            }
            Ok(ScanResult { report: Report::Findings(listing), elapsed_millis })
        }
    }
}

} // verus!
