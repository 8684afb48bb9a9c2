use dir_crawler::urls::generate_urls;

fn owned(items: &[&str]) -> Vec<String> {
    items.iter().map(|s| s.to_string()).collect()
}

#[test]
fn bare_and_slashed_variants() {
    let urls = generate_urls("http://example.test", "admin", &[]);
    assert_eq!(urls, owned(&["http://example.test/admin", "http://example.test/admin/"]));
}

#[test]
fn each_extension_adds_two_variants() {
    let urls = generate_urls("http://example.test", "admin", &owned(&["php", "html"]));
    assert_eq!(
        urls,
        owned(&[
            "http://example.test/admin",
            "http://example.test/admin/",
            "http://example.test/admin.php",
            "http://example.test/admin.php/",
            "http://example.test/admin.html",
            "http://example.test/admin.html/",
        ])
    );
}

#[test]
fn variant_count_is_two_plus_twice_the_extensions() {
    for n in 0..6usize {
        let exts: Vec<String> = (0..n).map(|i| format!("e{}", i)).collect();
        let urls = generate_urls("http://h", "p", &exts);
        assert_eq!(urls.len(), 2 + 2 * n);
    }
}

#[test]
fn trailing_slashes_of_the_base_are_dropped() {
    let urls = generate_urls("http://example.test///", "login", &[]);
    assert_eq!(urls, owned(&["http://example.test/login", "http://example.test/login/"]));
}

#[test]
fn base_of_slashes_only_is_dropped_whole() {
    let urls = generate_urls("//", "x", &[]);
    assert_eq!(urls, owned(&["/x", "/x/"]));
}

#[test]
fn inner_slashes_of_the_base_stay() {
    let urls = generate_urls("http://h/a//b/", "x", &[]);
    assert_eq!(urls, owned(&["http://h/a//b/x", "http://h/a//b/x/"]));
}

#[test]
fn repeated_extension_is_kept_once() {
    let urls = generate_urls("http://h", "p", &owned(&["php", "php"]));
    assert_eq!(urls, owned(&["http://h/p", "http://h/p/", "http://h/p.php", "http://h/p.php/"]));
}

#[test]
fn extension_ending_in_a_slash_falls_together_with_its_stem() {
    let urls = generate_urls("http://h", "p", &owned(&["a", "a/"]));
    assert_eq!(
        urls,
        owned(&["http://h/p", "http://h/p/", "http://h/p.a", "http://h/p.a/", "http://h/p.a//"])
    );
}

#[test]
fn empty_extension_gives_a_dot_and_no_duplicate() {
    let urls = generate_urls("http://h", "p", &owned(&[""]));
    assert_eq!(urls, owned(&["http://h/p", "http://h/p/", "http://h/p.", "http://h/p./"]));
}

#[test]
fn every_variant_has_the_shape_of_the_pattern() {
    let exts = owned(&["php", "bak"]);
    let urls = generate_urls("https://t.example/", "secret", &exts);
    for url in &urls {
        let rest = url.strip_prefix("https://t.example/secret").unwrap();
        let rest = rest.strip_suffix('/').unwrap_or(rest);
        assert!(rest.is_empty() || exts.iter().any(|e| rest == format!(".{}", e)));
    }
}

#[test]
fn path_with_other_alphabets_is_joined_as_it_is() {
    let urls = generate_urls("http://h/", "caf\u{e9}", &owned(&["\u{44f}"]));
    assert_eq!(
        urls,
        owned(&["http://h/caf\u{e9}", "http://h/caf\u{e9}/", "http://h/caf\u{e9}.\u{44f}", "http://h/caf\u{e9}.\u{44f}/"])
    );
}
