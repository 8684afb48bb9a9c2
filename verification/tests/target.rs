use dir_crawler::target::{is_web_scheme, resolve, validate_url, UrlError};

#[test]
fn web_urls_are_taken_as_they_are() {
    assert_eq!(validate_url("http://example.test"), Ok("http://example.test".to_string()));
    assert_eq!(validate_url("https://example.test/path/"), Ok("https://example.test/path/".to_string()));
    assert_eq!(validate_url("HTTPS://Example.Test"), Ok("HTTPS://Example.Test".to_string()));
}

#[test]
fn text_that_is_no_url_is_turned_down() {
    assert_eq!(validate_url("example.test"), Err(UrlError::InvalidFormat));
    assert_eq!(validate_url(""), Err(UrlError::InvalidFormat));
    assert_eq!(validate_url("//example.test"), Err(UrlError::InvalidFormat));
}

#[test]
fn host_with_port_is_completed_with_http() {
    assert_eq!(validate_url("localhost:8080"), Ok("http://localhost:8080".to_string()));
}

#[test]
fn other_scheme_that_parses_behind_none_is_turned_down() {
    assert_eq!(validate_url("x:["), Err(UrlError::SchemeMissing));
}

#[test]
fn only_http_and_https_are_web_schemes() {
    assert!(is_web_scheme("http"));
    assert!(is_web_scheme("https"));
    assert!(!is_web_scheme("ftp"));
    assert!(!is_web_scheme("HTTP"));
    assert!(!is_web_scheme(""));
    assert!(!is_web_scheme("httpx"));
}

#[test]
fn decision_follows_what_the_parser_made() {
    assert_eq!(resolve("u", None, true, true), Err(UrlError::InvalidFormat));
    assert_eq!(resolve("http://u", Some("http".to_string()), false, false), Ok("http://u".to_string()));
    assert_eq!(resolve("https://u", Some("https".to_string()), true, true), Ok("https://u".to_string()));
    assert_eq!(resolve("h:1", Some("h".to_string()), true, true), Ok("http://h:1".to_string()));
    assert_eq!(resolve("h:1", Some("h".to_string()), true, false), Ok("http://h:1".to_string()));
    assert_eq!(resolve("h:1", Some("h".to_string()), false, true), Ok("https://h:1".to_string()));
    assert_eq!(resolve("h:1", Some("h".to_string()), false, false), Err(UrlError::SchemeMissing));
}

#[test]
fn errors_have_their_messages() {
    assert_eq!(UrlError::InvalidFormat.message(), "Invalid URL format");
    assert_eq!(UrlError::SchemeMissing.message(), "Invalid URL. Use full URL with http:// or https://");
}
