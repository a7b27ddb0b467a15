use outpack::git::{get_branch_info, list_branches, message_lines, strip_origin_prefix, RawBranch};

fn raw(name: &str, hash: &str, time: i64, message: &str) -> RawBranch {
    RawBranch {
        name: name.as_bytes().to_vec(),
        commit_hash: hash.to_string(),
        time,
        message: message.as_bytes().to_vec(),
    }
}

#[test]
fn can_list_git_branches() {
    let now_in_seconds: i64 = 1_700_000_000;
    let listed: Vec<Result<RawBranch, String>> = vec![
        Ok(raw("origin/HEAD", "aa", now_in_seconds, "Second commit")),
        Ok(raw("origin/master", "aa", now_in_seconds, "Second commit")),
        Ok(raw("origin/other", "bb", now_in_seconds, "Third commit")),
    ];
    let branches = list_branches(listed).unwrap();
    assert_eq!(branches.len(), 2);
    assert_eq!(branches[0].name, String::from("master"));
    assert_eq!(branches[0].message, vec![String::from("Second commit")]);
    assert_eq!(branches[0].time, now_in_seconds as i64);
    assert_eq!(branches[1].name, String::from("other"));
    assert_eq!(branches[1].message, vec![String::from("Third commit")]);
    assert_eq!(branches[1].time, now_in_seconds as i64);
}

#[test]
fn listing_skips_the_first_entry_even_if_unreadable() {
    let listed: Vec<Result<RawBranch, String>> =
        vec![Err("head".to_string()), Ok(raw("origin/main", "cc", 5, "m"))];
    let branches = list_branches(listed).unwrap();
    assert_eq!(branches.len(), 1);
    assert_eq!(branches[0].commit_hash, "cc");
    assert!(list_branches(Vec::<Result<RawBranch, String>>::new()).unwrap().is_empty());
}

#[test]
fn listing_ends_with_the_first_error() {
    let listed: Vec<Result<RawBranch, String>> = vec![
        Ok(raw("origin/HEAD", "aa", 1, "")),
        Ok(raw("origin/main", "cc", 5, "m")),
        Err("first".to_string()),
        Err("second".to_string()),
    ];
    assert_eq!(list_branches(listed).unwrap_err(), "first");
}

#[test]
fn origin_prefix_is_stripped_once() {
    assert_eq!(strip_origin_prefix("origin/main"), "main");
    assert_eq!(strip_origin_prefix("origin/origin/x"), "origin/x");
    assert_eq!(strip_origin_prefix("main"), "main");
    assert_eq!(strip_origin_prefix("origin"), "origin");
    assert_eq!(strip_origin_prefix("origin/"), "");
    assert_eq!(strip_origin_prefix("upstream/main"), "upstream/main");
    assert_eq!(strip_origin_prefix("\u{e9}rigin/main"), "\u{e9}rigin/main");
}

#[test]
fn message_is_split_at_line_feeds() {
    assert_eq!(message_lines("a\nb\n"), vec!["a".to_string(), "b".to_string()]);
    assert_eq!(message_lines("a\n\nb"), vec!["a".to_string(), "".to_string(), "b".to_string()]);
    assert_eq!(message_lines(""), Vec::<String>::new());
    assert_eq!(message_lines("\n"), vec!["".to_string()]);
    assert_eq!(message_lines("caf\u{e9}\nx"), vec!["caf\u{e9}".to_string(), "x".to_string()]);
}

#[test]
fn branch_info_keeps_hash_and_time() {
    let info = get_branch_info(raw("origin/feature", "0123abcd", -5, "Title\n\nBody\n"));
    assert_eq!(info.name, "feature");
    assert_eq!(info.commit_hash, "0123abcd");
    assert_eq!(info.time, -5);
    assert_eq!(info.message, vec!["Title".to_string(), "".to_string(), "Body".to_string()]);
}

#[test]
fn invalid_utf8_is_replaced() {
    let info = get_branch_info(RawBranch {
        name: b"origin/ma\xffin".to_vec(),
        commit_hash: "00".to_string(),
        time: 1,
        message: b"a\xfe\nb\xc3\xa9\n".to_vec(),
    });
    assert_eq!(info.name, "ma\u{fffd}in");
    assert_eq!(info.message, vec!["a\u{fffd}".to_string(), "b\u{e9}".to_string()]);
}
