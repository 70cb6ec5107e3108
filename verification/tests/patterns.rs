use openset::pattern::{MimeGlob, MimeMatcher, NameGlob, NameMatcher};

#[test]
fn literal_mime_pattern_is_exact() {
    let p = MimeGlob::literal("text/plain".to_string());
    assert!(p.matches("text/plain"));
    assert!(!p.matches("text/plain; charset=utf-8"));
    assert!(!p.matches("text/plai"));
    assert!(!p.matches(""));
}

#[test]
fn prefix_wildcard_matches_the_rest() {
    let p = MimeGlob::wildcard("text/".to_string(), String::new());
    assert!(p.matches("text/plain"));
    assert!(p.matches("text/"));
    assert!(!p.matches("tex"));
    assert!(!p.matches("image/png"));
}

#[test]
fn suffix_wildcard_matches_the_front() {
    let p = NameGlob::wildcard(String::new(), ".txt".to_string(), None);
    assert!(p.match_path("notes.txt", false));
    assert!(p.match_path(".txt", false));
    assert!(!p.match_path("notes.txt.bak", false));
    assert!(!p.match_path("txt", false));
}

#[test]
fn wildcard_needs_room_for_both_ends() {
    let p = MimeGlob::wildcard("ab".to_string(), "ab".to_string());
    assert!(p.matches("abab"));
    assert!(p.matches("abxab"));
    assert!(!p.matches("aba"));
    assert!(!p.matches("ab"));
}

#[test]
fn bare_wildcard_matches_everything() {
    let p = MimeGlob::wildcard(String::new(), String::new());
    assert!(p.matches(""));
    assert!(p.matches("anything/at-all"));
}

#[test]
fn directory_requirement_is_checked() {
    let only_dirs = NameGlob::wildcard(String::new(), String::new(), Some(true));
    assert!(only_dirs.match_path("p", true));
    assert!(!only_dirs.match_path("p", false));
    let only_files = NameGlob::literal("exact".to_string(), Some(false));
    assert!(only_files.match_path("exact", false));
    assert!(!only_files.match_path("exact", true));
    assert!(!only_files.match_path("other", false));
}

#[test]
fn unicode_paths_match_by_characters() {
    let p = NameGlob::wildcard(String::new(), ".txt".to_string(), None);
    assert!(p.match_path("ノート.txt", false));
    let q = MimeGlob::literal("text/plain".to_string());
    assert!(!q.matches("тext/plain"));
}
