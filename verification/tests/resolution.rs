use openset::open::{Group, Open, OpenRule, MIME_DIR};
use openset::opener::Opener;
use openset::pattern::{MimeGlob, NameGlob};

fn op(cmd: &str, block: bool) -> Opener {
    Opener { cmd: cmd.to_string(), args: Vec::new(), desc: String::new(), block }
}

fn op_full(cmd: &str, args: &[&str], desc: &str, block: bool) -> Opener {
    Opener {
        cmd: cmd.to_string(),
        args: args.iter().map(|a| a.to_string()).collect(),
        desc: desc.to_string(),
        block,
    }
}

fn group(name: &str, openers: Vec<Opener>) -> Group {
    Group { name: name.to_string(), openers }
}

fn mime_rule(prefix: &str, use_: &[&str]) -> OpenRule<MimeGlob, NameGlob> {
    OpenRule {
        mime: Some(MimeGlob::wildcard(prefix.to_string(), String::new())),
        name: None,
        use_: use_.iter().map(|u| u.to_string()).collect(),
    }
}

fn name_rule(suffix: &str, use_: &[&str]) -> OpenRule<MimeGlob, NameGlob> {
    OpenRule {
        mime: None,
        name: Some(NameGlob::wildcard(String::new(), suffix.to_string(), None)),
        use_: use_.iter().map(|u| u.to_string()).collect(),
    }
}

fn cmds(v: &[Opener]) -> Vec<String> {
    v.iter().map(|o| o.cmd.clone()).collect()
}

#[test]
fn name_rule_fires_before_mime_rule() {
    let open = Open::new(
        vec![group("text", vec![op("a", false), op("b", false)]), group("fallback", vec![op("c", false)])],
        vec![name_rule(".txt", &["text"]), mime_rule("text/", &["text", "fallback"])],
    );
    let r = open.openers("a.txt", "text/plain").expect("first rule should answer");
    assert_eq!(cmds(&r), vec!["a", "b"]);
    let r = open.openers("a.log", "text/plain").expect("second rule should answer");
    assert_eq!(cmds(&r), vec!["a", "b", "c"]);
}

#[test]
fn first_match_wins() {
    let open = Open::new(
        vec![group("first", vec![op("one", false)]), group("second", vec![op("two", false)])],
        vec![mime_rule("text/", &["first"]), mime_rule("text/", &["second"])],
    );
    let r = open.openers("f", "text/plain").expect("a rule matches");
    assert_eq!(cmds(&r), vec!["one"]);
}

#[test]
fn empty_resolution_falls_through() {
    let open = Open::new(
        vec![group("empty_group", Vec::new()), group("text", vec![op("a", false)])],
        vec![mime_rule("text/", &["empty_group"]), mime_rule("text/", &["text"])],
    );
    let r = open.openers("f", "text/plain").expect("the later rule should answer");
    assert_eq!(cmds(&r), vec!["a"]);
}

#[test]
fn unknown_group_falls_through() {
    let open = Open::new(
        vec![group("text", vec![op("a", false)])],
        vec![mime_rule("text/", &["no_such_group"]), mime_rule("text/", &["text"])],
    );
    let r = open.openers("f", "text/plain").expect("the later rule should answer");
    assert_eq!(cmds(&r), vec!["a"]);
}

#[test]
fn either_pattern_makes_the_rule_fire() {
    let both = OpenRule {
        mime: Some(MimeGlob::wildcard("text/".to_string(), String::new())),
        name: Some(NameGlob::wildcard(String::new(), ".md".to_string(), None)),
        use_: vec!["text".to_string()],
    };
    let open = Open::new(vec![group("text", vec![op("a", false)])], vec![both]);
    assert!(open.openers("notes.md", "application/octet-stream").is_some());
    assert!(open.openers("notes.bin", "text/plain").is_some());
    assert!(open.openers("notes.bin", "application/octet-stream").is_none());
}

#[test]
fn no_rule_matches() {
    let open = Open::new(
        vec![group("text", vec![op("a", false)])],
        vec![mime_rule("text/", &["text"])],
    );
    assert!(open.openers("f", "image/png").is_none());
}

#[test]
fn empty_registry_matches_nothing() {
    let open: Open<MimeGlob, NameGlob> = Open::new(vec![group("text", vec![op("a", false)])], Vec::new());
    assert!(open.openers("f", "text/plain").is_none());
}

#[test]
fn rule_without_patterns_never_fires() {
    let open: Open<MimeGlob, NameGlob> = Open::new(
        vec![group("text", vec![op("a", false)])],
        vec![OpenRule { mime: None, name: None, use_: vec!["text".to_string()] }],
    );
    assert!(open.openers("f", "text/plain").is_none());
}

#[test]
fn duplicate_group_reference_is_ignored() {
    let catalog = || vec![group("text", vec![op("a", false), op("b", false)])];
    let once = Open::new(catalog(), vec![mime_rule("text/", &["text"])]);
    let twice = Open::new(catalog(), vec![mime_rule("text/", &["text", "text"])]);
    let r1 = once.openers("f", "text/plain").unwrap();
    let r2 = twice.openers("f", "text/plain").unwrap();
    assert_eq!(cmds(&r1), cmds(&r2));
    assert_eq!(cmds(&r2), vec!["a", "b"]);
}

#[test]
fn identity_is_command_and_arguments() {
    // Same command and arguments with another label or blocking flag is
    // the same entry: the first occurrence wins.
    let open = Open::new(
        vec![
            group("a", vec![op_full("edit", &["-w"], "first", false)]),
            group("b", vec![op_full("edit", &["-w"], "second", true), op_full("edit", &[], "bare", false)]),
        ],
        vec![mime_rule("text/", &["a", "b"])],
    );
    let r = open.openers("f", "text/plain").unwrap();
    assert_eq!(r.len(), 2);
    assert_eq!(r[0].desc, "first");
    assert!(!r[0].block);
    assert_eq!(r[1].cmd, "edit");
    assert!(r[1].args.is_empty());
}

#[test]
fn catalog_construction_drops_group_duplicates() {
    let open: Open<MimeGlob, NameGlob> = Open::new(
        vec![group("g", vec![op("x", false), op("y", false), op_full("x", &[], "again", true)])],
        Vec::new(),
    );
    let g = open.group_openers(&"g".to_string()).expect("group exists");
    assert_eq!(cmds(g), vec!["x", "y"]);
    assert!(open.group_openers(&"h".to_string()).is_none());
}

#[test]
fn block_opener_returns_first_blocking() {
    let open = Open::new(
        vec![group("text", vec![op("bg", false), op("ed", true), op("ed2", true)])],
        vec![mime_rule("text/", &["text"])],
    );
    let b = open.block_opener("f", "text/plain").expect("a blocking opener exists");
    assert_eq!(b.cmd, "ed");
    assert!(b.block);
}

#[test]
fn block_opener_none_when_nothing_blocks() {
    let open = Open::new(
        vec![group("text", vec![op("bg", false)])],
        vec![mime_rule("text/", &["text"])],
    );
    assert!(open.block_opener("f", "text/plain").is_none());
}

#[test]
fn block_opener_none_without_match() {
    let open = Open::new(
        vec![group("text", vec![op("ed", true)])],
        vec![mime_rule("text/", &["text"])],
    );
    assert!(open.block_opener("f", "image/png").is_none());
}

#[test]
fn directory_sentinel_drives_name_patterns() {
    let dir_only = OpenRule::<MimeGlob, NameGlob> {
        mime: None,
        name: Some(NameGlob::wildcard(String::new(), String::new(), Some(true))),
        use_: vec!["folders".to_string()],
    };
    let open = Open::new(vec![group("folders", vec![op("fm", false)])], vec![dir_only]);
    let r = open.openers("some/dir", MIME_DIR).expect("directories match");
    assert_eq!(cmds(&r), vec!["fm"]);
    assert!(open.openers("some/file", "text/plain").is_none());
}

#[test]
fn common_of_empty_batch_is_empty() {
    let open = Open::new(
        vec![group("text", vec![op("a", false)])],
        vec![mime_rule("text/", &["text"])],
    );
    let r = open.common_openers(&Vec::new());
    assert!(r.is_empty());
}

#[test]
fn common_of_single_target_is_its_set() {
    let open = Open::new(
        vec![group("text", vec![op("a", false), op("b", false)])],
        vec![mime_rule("text/", &["text"])],
    );
    let batch = vec![("f".to_string(), "text/plain".to_string())];
    let r = open.common_openers(&batch);
    assert_eq!(cmds(&r), vec!["a", "b"]);
    let batch = vec![("f".to_string(), "image/png".to_string())];
    assert!(open.common_openers(&batch).is_empty());
}

#[test]
fn unmatched_targets_impose_no_constraint() {
    let open = Open::new(
        vec![group("text", vec![op("a", false), op("b", false)])],
        vec![mime_rule("text/", &["text"])],
    );
    let batch = vec![
        ("u".to_string(), "application/x-unknown".to_string()),
        ("f".to_string(), "text/plain".to_string()),
        ("v".to_string(), "application/x-unknown".to_string()),
    ];
    let r = open.common_openers(&batch);
    assert_eq!(cmds(&r), vec!["a", "b"]);
}

#[test]
fn disjoint_targets_share_nothing() {
    let open = Open::new(
        vec![group("text", vec![op("a", false)]), group("image", vec![op("i", false)])],
        vec![mime_rule("text/", &["text"]), mime_rule("image/", &["image"])],
    );
    let batch = vec![
        ("f".to_string(), "text/plain".to_string()),
        ("g".to_string(), "image/png".to_string()),
    ];
    assert!(open.common_openers(&batch).is_empty());
}

#[test]
fn common_keeps_first_seen_order() {
    let open = Open::new(
        vec![
            group("text", vec![op("a", false), op("c", false)]),
            group("rich", vec![op("b", false), op("c", false), op("a", false)]),
        ],
        vec![mime_rule("text/plain", &["text"]), mime_rule("text/html", &["rich"])],
    );
    let batch = vec![
        ("f".to_string(), "text/plain".to_string()),
        ("g".to_string(), "text/html".to_string()),
    ];
    // Candidates in first-seen order: a, c, b; of those, a and c are in
    // both sets.
    let r = open.common_openers(&batch);
    assert_eq!(cmds(&r), vec!["a", "c"]);
}
