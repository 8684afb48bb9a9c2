use dir_crawler::wordlist::{default_wordlists, find_wordlist, first_present, wordlist_candidates};

#[test]
fn default_places_are_the_ten() {
    assert_eq!(
        default_wordlists(),
        vec![
            "/usr/share/seclists/Discovery/Web-Content/raft-medium-directories-lowercase.txt".to_string(),
            "/opt/seclists/Discovery/Web-Content/raft-medium-directories-lowercase.txt".to_string(),
            "~/seclists/Discovery/Web-Content/raft-medium-directories-lowercase.txt".to_string(),
            "./raft-medium-directories-lowercase.txt".to_string(),
            "/usr/share/wordlists/seclists/raft-medium-directories-lowercase.txt".to_string(),
            "~/wordlists/seclists/raft-medium-directories-lowercase.txt".to_string(),
            "/usr/share/seclists/Discovery/Web-Content/directory-list-2.3-medium.txt".to_string(),
            "/opt/seclists/Discovery/Web-Content/directory-list-2.3-medium.txt".to_string(),
            "~/seclists/Discovery/Web-Content/directory-list-2.3-medium.txt".to_string(),
            "/usr/share/wordlists/seclists/directory-list-2.3-medium.txt".to_string(),
        ]
    );
}

#[test]
fn candidates_are_the_places_with_the_tilde_expanded() {
    let places = default_wordlists();
    let candidates = wordlist_candidates();
    assert_eq!(candidates.len(), places.len());
    for (place, candidate) in places.iter().zip(candidates.iter()) {
        assert_eq!(candidate, &shellexpand::tilde(place).into_owned());
        if place.starts_with('~') {
            assert!(candidate.ends_with(&place[1..]));
        } else {
            assert_eq!(candidate, place);
        }
    }
}

#[test]
fn tilde_gives_way_to_the_home_directory() {
    let home = shellexpand::tilde("~").into_owned();
    let candidates = wordlist_candidates();
    if home != "~" {
        assert_eq!(candidates[2], format!("{}/seclists/Discovery/Web-Content/raft-medium-directories-lowercase.txt", home));
        assert!(!candidates[5].starts_with('~'));
    }
}

#[test]
fn first_present_is_the_least_index() {
    assert_eq!(first_present(&[false, true, true]), Some(1));
    assert_eq!(first_present(&[true]), Some(0));
    assert_eq!(first_present(&[false, false]), None);
    assert_eq!(first_present(&[]), None);
}

#[test]
fn wordlist_is_the_first_place_that_exists() {
    let places = vec!["/a".to_string(), "/b".to_string(), "/c".to_string()];
    assert_eq!(find_wordlist(&places, &[false, true, true]), Some("/b".to_string()));
    assert_eq!(find_wordlist(&places, &[true, true, true]), Some("/a".to_string()));
    assert_eq!(find_wordlist(&places, &[false, false, true]), Some("/c".to_string()));
}

#[test]
fn no_wordlist_where_no_place_exists() {
    let places = vec!["/a".to_string(), "/b".to_string()];
    assert_eq!(find_wordlist(&places, &[false, false]), None);
    assert_eq!(find_wordlist(&places, &[]), None);
    assert_eq!(find_wordlist(&Vec::new(), &[true]), None);
    assert_eq!(find_wordlist(&places, &[false, false, true]), None);
}
