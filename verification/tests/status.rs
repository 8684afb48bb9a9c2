use dir_crawler::status::{accepts, classify, StatusClass};

#[test]
fn empty_filter_accepts_every_code() {
    assert!(accepts(&[], 200));
    assert!(accepts(&[], 404));
    assert!(accepts(&[], 0));
    assert!(accepts(&[], 65535));
}

#[test]
fn filter_accepts_its_members_only() {
    let filter = [200u16, 403];
    assert!(accepts(&filter, 200));
    assert!(accepts(&filter, 403));
    assert!(!accepts(&filter, 301));
    assert!(!accepts(&filter, 500));
    assert!(!accepts(&filter, 404));
}

#[test]
fn classes_follow_the_ranges() {
    assert_eq!(classify(199), StatusClass::Other);
    assert_eq!(classify(200), StatusClass::Success);
    assert_eq!(classify(299), StatusClass::Success);
    assert_eq!(classify(300), StatusClass::Redirect);
    assert_eq!(classify(399), StatusClass::Redirect);
    assert_eq!(classify(400), StatusClass::Failure);
    assert_eq!(classify(500), StatusClass::Failure);
    assert_eq!(classify(599), StatusClass::Failure);
    assert_eq!(classify(600), StatusClass::Other);
    assert_eq!(classify(0), StatusClass::Other);
}
