use dir_crawler::text::{chars_of, string_of, text_eq, text_less};

#[test]
fn characters_of_a_string_come_in_order() {
    assert_eq!(chars_of("a\u{e9}z"), vec!['a', '\u{e9}', 'z']);
    assert_eq!(chars_of(""), Vec::<char>::new());
}

#[test]
fn string_of_a_range_of_characters() {
    let cs = vec!['h', 'e', 'l', 'l', 'o'];
    assert_eq!(string_of(&cs, 1, 4), "ell");
    assert_eq!(string_of(&cs, 0, 5), "hello");
    assert_eq!(string_of(&cs, 2, 2), "");
}

#[test]
fn equality_is_by_content() {
    assert!(text_eq("abc", "abc"));
    assert!(text_eq("", ""));
    assert!(!text_eq("abc", "abd"));
    assert!(!text_eq("abc", "ab"));
    assert!(!text_eq("", "a"));
}

#[test]
fn order_agrees_with_the_order_of_str() {
    let samples = ["", "a", "ab", "b", "B", "a/", "a.", "\u{e9}", "z", "\u{1f600}", "aa"];
    for x in samples.iter() {
        for y in samples.iter() {
            assert_eq!(text_less(x, y), x < y);
        }
    }
}

#[test]
fn prefix_comes_before_the_longer_string() {
    assert!(text_less("http://h/a", "http://h/a/"));
    assert!(!text_less("http://h/a/", "http://h/a"));
    assert!(!text_less("same", "same"));
}
