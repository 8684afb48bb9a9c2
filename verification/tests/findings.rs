use dir_crawler::findings::{finding_less, Aggregator, FindingRecord};

fn finding(url: &str, status: u16) -> FindingRecord {
    FindingRecord { url: url.to_string(), status }
}

#[test]
fn new_aggregator_is_empty() {
    let agg = Aggregator::new();
    assert!(agg.is_empty());
    assert_eq!(agg.len(), 0);
    assert_eq!(agg.snapshot(), vec![]);
    assert_eq!(agg.sorted(), vec![]);
}

#[test]
fn recording_twice_is_recording_once() {
    let mut agg = Aggregator::new();
    agg.record("http://h/a", 200);
    assert_eq!(agg.len(), 1);
    agg.record("http://h/a", 200);
    assert_eq!(agg.len(), 1);
    assert_eq!(agg.snapshot(), vec![finding("http://h/a", 200)]);
}

#[test]
fn same_url_with_another_status_is_another_finding() {
    let mut agg = Aggregator::new();
    agg.record("http://h/a", 200);
    agg.record("http://h/a", 403);
    assert_eq!(agg.len(), 2);
    assert!(agg.contains("http://h/a", 200));
    assert!(agg.contains("http://h/a", 403));
    assert!(!agg.contains("http://h/a", 404));
    assert!(!agg.contains("http://h/b", 200));
}

#[test]
fn snapshot_keeps_the_order_of_first_recording() {
    let mut agg = Aggregator::new();
    agg.record("http://h/z", 200);
    agg.record("http://h/a", 301);
    agg.record("http://h/z", 200);
    assert_eq!(agg.snapshot(), vec![finding("http://h/z", 200), finding("http://h/a", 301)]);
    assert!(!agg.is_empty());
}

#[test]
fn report_is_sorted_by_url_then_status() {
    let mut agg = Aggregator::new();
    agg.record("http://h/b", 200);
    agg.record("http://h/a/", 403);
    agg.record("http://h/a", 301);
    agg.record("http://h/a", 200);
    agg.record("http://h/B", 200);
    assert_eq!(
        agg.sorted(),
        vec![
            finding("http://h/B", 200),
            finding("http://h/a", 200),
            finding("http://h/a", 301),
            finding("http://h/a/", 403),
            finding("http://h/b", 200),
        ]
    );
}

#[test]
fn report_does_not_depend_on_the_order_of_recording() {
    let items = [("http://h/c", 200u16), ("http://h/a", 403), ("http://h/b", 200), ("http://h/a", 200)];
    let orders: [[usize; 4]; 4] = [[0, 1, 2, 3], [3, 2, 1, 0], [1, 3, 0, 2], [2, 0, 3, 1]];
    let mut reports = Vec::new();
    for order in orders.iter() {
        let mut agg = Aggregator::new();
        for &i in order.iter() {
            agg.record(items[i].0, items[i].1);
        }
        reports.push(agg.sorted());
    }
    for report in &reports {
        assert_eq!(report, &reports[0]);
    }
    assert_eq!(
        reports[0],
        vec![finding("http://h/a", 200), finding("http://h/a", 403), finding("http://h/b", 200), finding("http://h/c", 200)]
    );
}

#[test]
fn order_of_urls_is_the_order_of_their_bytes() {
    let mut agg = Aggregator::new();
    agg.record("http://h/\u{e9}", 200);
    agg.record("http://h/z", 200);
    agg.record("http://h/\u{1f600}", 200);
    agg.record("http://h/", 200);
    let mut expected = vec![
        "http://h/\u{e9}".to_string(),
        "http://h/z".to_string(),
        "http://h/\u{1f600}".to_string(),
        "http://h/".to_string(),
    ];
    expected.sort();
    let got: Vec<String> = agg.sorted().into_iter().map(|f| f.url).collect();
    assert_eq!(got, expected);
}

#[test]
fn finding_order_is_strict() {
    let a = finding("http://h/a", 200);
    let b = finding("http://h/a", 201);
    let c = finding("http://h/ab", 100);
    assert!(finding_less(&a, &b));
    assert!(!finding_less(&b, &a));
    assert!(!finding_less(&a, &a));
    assert!(finding_less(&b, &c));
    assert!(finding_less(&a, &c));
    assert!(!finding_less(&c, &a));
}

#[test]
fn clone_of_a_finding_is_equal_to_it() {
    let a = finding("http://h/a", 200);
    assert_eq!(a.clone(), a);
}
