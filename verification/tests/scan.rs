use dir_crawler::config::{Method, ScanConfig};
use dir_crawler::findings::FindingRecord;
use dir_crawler::model::TaskPhase;
use dir_crawler::scan::{checked_units, Action, Notice, ProbeOutcome, Report, Scan, ScanError, ScanResult};
use dir_crawler::status::StatusClass;

fn config(threads: usize, codes: &[u16], extensions: &[&str]) -> ScanConfig {
    ScanConfig {
        url: "http://example.test".to_string(),
        wordlist: "words.txt".to_string(),
        threads,
        verbose: false,
        silent: false,
        status_codes: codes.to_vec(),
        timeout: 10,
        method: Method::Get,
        extensions: extensions.iter().map(|e| e.to_string()).collect(),
    }
}

fn words(items: &[&str]) -> Vec<String> {
    items.iter().map(|s| s.to_string()).collect()
}

fn finding(url: &str, status: u16) -> FindingRecord {
    FindingRecord { url: url.to_string(), status }
}

struct Run {
    result: ScanResult,
    most_active: usize,
    probes: usize,
    starts: Vec<usize>,
}

/// Drives a scan to its end against `server`. `pick` chooses, among the
/// running tasks, the one whose next outcome comes in.
fn drive(
    cfg: ScanConfig,
    candidates: Vec<String>,
    server: fn(&str) -> ProbeOutcome,
    pick: fn(usize, usize) -> usize,
) -> Run {
    let threads = cfg.threads;
    let mut scan = Scan::new(cfg, candidates);
    let total = scan.total_units();
    let mut running: Vec<(usize, Vec<String>, usize)> = Vec::new();
    let mut most_active = 0;
    let mut probes = 0;
    let mut starts = Vec::new();
    let mut step = 0;
    loop {
        match scan.next_action() {
            Action::Start { task, urls } => {
                starts.push(task);
                running.push((task, urls, 0));
            }
            Action::Wait => {
                let at = pick(step, running.len());
                step += 1;
                let outcome = server(&running[at].1[running[at].2]);
                scan.record_outcome(running[at].0, outcome).unwrap();
                probes += 1;
                running[at].2 += 1;
                if running[at].2 == running[at].1.len() {
                    running.remove(at);
                }
            }
            Action::Finish => break,
        }
        assert_eq!(scan.active(), running.len());
        assert!(scan.active() <= threads);
        assert_eq!(scan.progress(), probes);
        assert!(scan.progress() <= total);
        if scan.active() > most_active {
            most_active = scan.active();
        }
    }
    assert!(scan.is_finished());
    Run { result: scan.finish(1234).unwrap(), most_active, probes, starts }
}

fn oldest(_step: usize, _running: usize) -> usize {
    0
}

fn newest(_step: usize, running: usize) -> usize {
    running - 1
}

fn scattered(step: usize, running: usize) -> usize {
    (step * 7 + 3) % running
}

fn admin_only(url: &str) -> ProbeOutcome {
    if url == "http://example.test/admin" {
        ProbeOutcome::Status(200)
    } else {
        ProbeOutcome::Status(404)
    }
}

fn always_missing(_url: &str) -> ProbeOutcome {
    ProbeOutcome::Status(404)
}

fn four_answers(url: &str) -> ProbeOutcome {
    match url {
        "http://example.test/one" => ProbeOutcome::Status(200),
        "http://example.test/two" => ProbeOutcome::Status(301),
        "http://example.test/three" => ProbeOutcome::Status(403),
        "http://example.test/four" => ProbeOutcome::Status(500),
        _ => ProbeOutcome::Failed("connection refused".to_string()),
    }
}

fn by_length(url: &str) -> ProbeOutcome {
    match url.len() % 4 {
        0 => ProbeOutcome::Status(200),
        1 => ProbeOutcome::Status(403),
        2 => ProbeOutcome::Status(404),
        _ => ProbeOutcome::Failed("timed out".to_string()),
    }
}

#[test]
fn end_to_end_single_finding() {
    let run = drive(config(20, &[200, 204, 301, 302, 307, 401, 403], &["php"]), words(&["admin", "login"]), admin_only, oldest);
    assert_eq!(run.result.report, Report::Findings(vec![finding("http://example.test/admin", 200)]));
    assert_eq!(run.result.elapsed_millis, 1234);
    assert_eq!(run.probes, 8);
    assert_eq!(run.starts, vec![0, 1]);
}

#[test]
fn no_findings_gives_the_empty_report() {
    let run = drive(config(4, &[200, 403], &["php"]), words(&["admin", "login"]), always_missing, oldest);
    assert_eq!(run.result.report, Report::NoFindings);
    assert_eq!(run.probes, 8);
}

#[test]
fn filter_keeps_the_codes_of_interest_only() {
    let run = drive(config(2, &[200, 403], &[]), words(&["one", "two", "three", "four"]), four_answers, oldest);
    assert_eq!(
        run.result.report,
        Report::Findings(vec![finding("http://example.test/one", 200), finding("http://example.test/three", 403)])
    );
}

#[test]
fn empty_filter_keeps_every_answer() {
    let run = drive(config(2, &[], &[]), words(&["one", "two", "three", "four"]), four_answers, newest);
    assert_eq!(
        run.result.report,
        Report::Findings(vec![
            finding("http://example.test/four", 500),
            finding("http://example.test/one", 200),
            finding("http://example.test/three", 403),
            finding("http://example.test/two", 301),
        ])
    );
}

#[test]
fn report_is_the_same_for_every_order_of_completion() {
    let list = words(&["a", "bb", "ccc", "dddd", "eeeee", "f", "gg"]);
    let first = drive(config(3, &[200, 403], &["php", "txt"]), list.clone(), by_length, oldest);
    let second = drive(config(3, &[200, 403], &["php", "txt"]), list.clone(), by_length, newest);
    let third = drive(config(3, &[200, 403], &["php", "txt"]), list.clone(), by_length, scattered);
    let alone = drive(config(1, &[200, 403], &["php", "txt"]), list, by_length, oldest);
    assert_eq!(first.result, second.result);
    assert_eq!(first.result, third.result);
    assert_eq!(first.result, alone.result);
    assert!(first.result.report != Report::NoFindings);
}

#[test]
fn never_more_active_tasks_than_threads() {
    for threads in 1..6usize {
        for count in 0..9usize {
            let list: Vec<String> = (0..count).map(|i| format!("w{}", i)).collect();
            let run = drive(config(threads, &[], &["a"]), list, by_length, scattered);
            assert!(run.most_active <= threads);
            assert_eq!(run.most_active, if count < threads { count } else { threads });
            assert_eq!(run.probes, count * 4);
            assert_eq!(run.starts, (0..count).collect::<Vec<usize>>());
        }
    }
}

#[test]
fn total_units_is_entries_times_variants() {
    let scan = Scan::new(config(2, &[], &["php", "html", "txt"]), words(&["a", "b", "c", "d", "e"]));
    assert_eq!(scan.total_units(), 40);
    let none = Scan::new(config(2, &[], &["php"]), Vec::new());
    assert_eq!(none.total_units(), 0);
    let bare = Scan::new(config(2, &[], &[]), words(&["a", "b", "c"]));
    assert_eq!(bare.total_units(), 6);
}

#[test]
fn empty_wordlist_finishes_at_once() {
    let mut scan = Scan::new(config(2, &[], &["php"]), Vec::new());
    assert!(scan.is_finished());
    assert_eq!(scan.next_action(), Action::Finish);
    assert_eq!(scan.finish(7).unwrap(), ScanResult { report: Report::NoFindings, elapsed_millis: 7 });
}

#[test]
fn start_hands_out_the_variants_of_the_entry() {
    let mut scan = Scan::new(config(1, &[], &["php"]), words(&["admin", "login"]));
    assert_eq!(scan.phase(0), TaskPhase::Pending);
    assert_eq!(
        scan.next_action(),
        Action::Start {
            task: 0,
            urls: words(&[
                "http://example.test/admin",
                "http://example.test/admin/",
                "http://example.test/admin.php",
                "http://example.test/admin.php/",
            ]),
        }
    );
    assert_eq!(scan.phase(0), TaskPhase::Requesting);
    assert_eq!(scan.phase(1), TaskPhase::Pending);
    assert_eq!(scan.started(), 1);
    assert_eq!(scan.active(), 1);
    assert_eq!(scan.next_action(), Action::Wait);
    assert_eq!(scan.started(), 1);
}

#[test]
fn permit_is_freed_by_the_last_outcome_of_a_task() {
    let mut scan = Scan::new(config(1, &[], &[]), words(&["a", "b"]));
    assert!(matches!(scan.next_action(), Action::Start { task: 0, .. }));
    scan.record_outcome(0, ProbeOutcome::Status(404)).unwrap();
    assert_eq!(scan.active(), 1);
    assert_eq!(scan.next_action(), Action::Wait);
    scan.record_outcome(0, ProbeOutcome::Failed("reset".to_string())).unwrap();
    assert_eq!(scan.active(), 0);
    assert_eq!(scan.phase(0), TaskPhase::Done);
    assert_eq!(scan.progress(), 2);
    assert!(matches!(scan.next_action(), Action::Start { task: 1, .. }));
    assert_eq!(scan.active(), 1);
}

#[test]
fn outcome_that_is_not_due_is_an_error_and_changes_nothing() {
    let mut scan = Scan::new(config(2, &[200], &[]), words(&["a"]));
    assert_eq!(scan.record_outcome(0, ProbeOutcome::Status(200)), Err(ScanError::UnexpectedOutcome));
    assert!(matches!(scan.next_action(), Action::Start { task: 0, .. }));
    assert_eq!(scan.record_outcome(1, ProbeOutcome::Status(200)), Err(ScanError::UnexpectedOutcome));
    scan.record_outcome(0, ProbeOutcome::Status(404)).unwrap();
    scan.record_outcome(0, ProbeOutcome::Status(404)).unwrap();
    assert_eq!(scan.record_outcome(0, ProbeOutcome::Status(200)), Err(ScanError::UnexpectedOutcome));
    assert_eq!(scan.progress(), 2);
    assert_eq!(scan.finding_count(), 0);
    assert_eq!(scan.finish(1).unwrap().report, Report::NoFindings);
}

#[test]
fn result_is_refused_while_tasks_are_left() {
    let pending = Scan::new(config(2, &[], &[]), words(&["a"]));
    assert_eq!(pending.finish(5), Err(ScanError::Unfinished));
    let mut running = Scan::new(config(2, &[], &[]), words(&["a"]));
    running.next_action();
    running.record_outcome(0, ProbeOutcome::Status(200)).unwrap();
    assert_eq!(running.finish(5), Err(ScanError::Unfinished));
}

#[test]
fn finding_is_shown_with_its_class() {
    let mut scan = Scan::new(config(1, &[200, 301], &[]), words(&["a"]));
    scan.next_action();
    assert_eq!(
        scan.record_outcome(0, ProbeOutcome::Status(301)),
        Ok(Notice::Found { url: "http://example.test/a".to_string(), status: 301, class: StatusClass::Redirect })
    );
    assert_eq!(scan.record_outcome(0, ProbeOutcome::Status(404)), Ok(Notice::Quiet));
    assert_eq!(scan.finding_count(), 1);
}

#[test]
fn silent_scan_records_without_showing() {
    let mut cfg = config(1, &[], &[]);
    cfg.silent = true;
    let mut scan = Scan::new(cfg, words(&["a"]));
    scan.next_action();
    assert_eq!(scan.record_outcome(0, ProbeOutcome::Status(200)), Ok(Notice::Quiet));
    assert_eq!(scan.record_outcome(0, ProbeOutcome::Status(200)), Ok(Notice::Quiet));
    assert_eq!(
        scan.finish(0).unwrap().report,
        Report::Findings(vec![finding("http://example.test/a", 200), finding("http://example.test/a/", 200)])
    );
}

#[test]
fn failed_request_is_shown_to_the_verbose_only() {
    let mut quiet = Scan::new(config(1, &[], &[]), words(&["a"]));
    quiet.next_action();
    assert_eq!(quiet.record_outcome(0, ProbeOutcome::Failed("timed out".to_string())), Ok(Notice::Quiet));
    assert_eq!(quiet.progress(), 1);
    let mut cfg = config(1, &[], &[]);
    cfg.verbose = true;
    let mut loud = Scan::new(cfg, words(&["a"]));
    loud.next_action();
    assert_eq!(
        loud.record_outcome(0, ProbeOutcome::Failed("timed out".to_string())),
        Ok(Notice::Failed { url: "http://example.test/a".to_string(), reason: "timed out".to_string() })
    );
    assert_eq!(loud.finding_count(), 0);
}

#[test]
fn collapsing_variants_are_probed_once() {
    let run = drive(config(2, &[], &["x", "x"]), words(&["a", "b"]), always_missing, oldest);
    assert_eq!(run.probes, 8);
    let scan = Scan::new(config(2, &[], &["x", "x"]), words(&["a", "b"]));
    assert_eq!(scan.total_units(), 12);
}

#[test]
fn units_are_counted_where_they_fit() {
    assert_eq!(checked_units(0, 0), Some(0));
    assert_eq!(checked_units(0, usize::MAX), Some(0));
    assert_eq!(checked_units(2, 1), Some(8));
    assert_eq!(checked_units(5, 3), Some(40));
    assert_eq!(checked_units(1, 0), Some(2));
    assert_eq!(checked_units(usize::MAX / 2, 0), Some(usize::MAX - 1));
}

#[test]
fn units_that_do_not_fit_are_not_counted() {
    assert_eq!(checked_units(1, usize::MAX), None);
    assert_eq!(checked_units(1, usize::MAX / 2), None);
    assert_eq!(checked_units(usize::MAX, 0), None);
    assert_eq!(checked_units(usize::MAX / 2 + 1, 0), None);
}
