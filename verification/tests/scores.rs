use emacs_rust::game_score::{
    check_privileges, make_entry_text, next_lock_step, parse_cli, parse_i128, prefix_path,
    score_file_mode, user_id_text, CliError, LockAction, PrefixError, BothSuidAndSgid,
};
use emacs_rust::score_entry::ScoreEntry;
use emacs_rust::score_file::{format_scores, parse_scores, ScoreFileError};
use emacs_rust::score_order::{compare_scores, enforce_limit, sort_scores};
use emacs_rust::score_value::normalize_integer;
use std::cmp::Ordering;

fn entry(score: &str, data: &str) -> ScoreEntry {
    ScoreEntry { score: score.as_bytes().to_vec(), user_data: data.as_bytes().to_vec() }
}

fn scores_of(v: &[ScoreEntry]) -> Vec<String> {
    v.iter().map(|e| String::from_utf8(e.score.clone()).unwrap()).collect()
}

fn args(list: &[&str]) -> Vec<Vec<u8>> {
    list.iter().map(|s| s.as_bytes().to_vec()).collect()
}

#[test]
fn normalize_integer_canonical_forms() {
    assert_eq!(normalize_integer(b"42"), Some(b"42".to_vec()));
    assert_eq!(normalize_integer(b"  007"), Some(b"7".to_vec()));
    assert_eq!(normalize_integer(b"-0012"), Some(b"-12".to_vec()));
    assert_eq!(normalize_integer(b"-000"), Some(b"0".to_vec()));
    assert_eq!(normalize_integer(b"0"), Some(b"0".to_vec()));
    assert_eq!(normalize_integer("\u{3000}\t\n 15".as_bytes()), Some(b"15".to_vec()));
    assert_eq!(normalize_integer("\u{a0}-3".as_bytes()), Some(b"-3".to_vec()));
}

#[test]
fn normalize_integer_rejects() {
    assert_eq!(normalize_integer(b""), None);
    assert_eq!(normalize_integer(b"-"), None);
    assert_eq!(normalize_integer(b"   "), None);
    assert_eq!(normalize_integer(b"+5"), None);
    assert_eq!(normalize_integer(b"12a"), None);
    assert_eq!(normalize_integer(b"12 "), None);
    assert_eq!(normalize_integer(b"--1"), None);
    assert_eq!(normalize_integer("\u{663}".as_bytes()), None);
}

#[test]
fn normalize_is_idempotent_on_examples() {
    for s in ["  -0004", "000", "99", "-1"] {
        let once = normalize_integer(s.as_bytes()).unwrap();
        assert_eq!(normalize_integer(&once), Some(once.clone()));
    }
}

#[test]
fn compare_scores_orders_numbers_descending() {
    let cases = [
        ("10", "9", Ordering::Less),
        ("9", "10", Ordering::Greater),
        ("12", "13", Ordering::Greater),
        ("5", "5", Ordering::Equal),
        ("0", "-1", Ordering::Less),
        ("-1", "0", Ordering::Greater),
        ("-1", "-10", Ordering::Less),
        ("-12", "-13", Ordering::Less),
        ("-13", "-12", Ordering::Greater),
    ];
    for (a, b, expected) in cases {
        assert_eq!(compare_scores(&entry(a, "x"), &entry(b, "y")), expected, "{} vs {}", a, b);
    }
}

#[test]
fn compare_scores_is_antisymmetric_on_examples() {
    let all = ["", "-", "0", "7", "70", "-7", "-70", "abc", "x y"];
    for a in all {
        for b in all {
            let ab = compare_scores(&entry(a, ""), &entry(b, ""));
            let ba = compare_scores(&entry(b, ""), &entry(a, ""));
            assert_eq!(ab, ba.reverse());
            assert_eq!(ab == Ordering::Equal, a == b);
        }
    }
}

#[test]
fn sort_scores_best_first_and_stable() {
    let mut v = vec![entry("5", "a"), entry("10", "b"), entry("-2", "c"), entry("5", "d"), entry("7", "e")];
    sort_scores(&mut v, false);
    assert_eq!(scores_of(&v), vec!["10", "7", "5", "5", "-2"]);
    assert_eq!(v[2].user_data, b"a".to_vec());
    assert_eq!(v[3].user_data, b"d".to_vec());
}

#[test]
fn sort_scores_reverse_is_worst_first_and_stable() {
    let mut v = vec![entry("5", "a"), entry("10", "b"), entry("-2", "c"), entry("5", "d")];
    sort_scores(&mut v, true);
    assert_eq!(scores_of(&v), vec!["-2", "5", "5", "10"]);
    assert_eq!(v[1].user_data, b"a".to_vec());
    assert_eq!(v[2].user_data, b"d".to_vec());
}

#[test]
fn sort_scores_empty() {
    let mut v: Vec<ScoreEntry> = Vec::new();
    sort_scores(&mut v, false);
    assert!(v.is_empty());
}

#[test]
fn enforce_limit_keeps_best() {
    let mut v = vec![entry("9", ""), entry("8", ""), entry("7", "")];
    enforce_limit(&mut v, 2, false);
    assert_eq!(scores_of(&v), vec!["9", "8"]);
    let mut v = vec![entry("1", ""), entry("2", ""), entry("3", "")];
    enforce_limit(&mut v, 2, true);
    assert_eq!(scores_of(&v), vec!["2", "3"]);
    let mut v = vec![entry("1", "")];
    enforce_limit(&mut v, 5, true);
    assert_eq!(scores_of(&v), vec!["1"]);
    let mut v = vec![entry("1", "")];
    enforce_limit(&mut v, 0, false);
    assert!(v.is_empty());
}

#[test]
fn parse_scores_reads_lines() {
    let data = b"10 alice data\r\n\n5 bob\n-3 carol x y\r";
    let v = parse_scores(data).ok().unwrap();
    assert_eq!(scores_of(&v), vec!["10", "5", "-3"]);
    assert_eq!(v[0].user_data, b"alice data".to_vec());
    assert_eq!(v[1].user_data, b"bob".to_vec());
    assert_eq!(v[2].user_data, b"carol x y\r".to_vec());
    assert!(parse_scores(b"").ok().unwrap().is_empty());
}

#[test]
fn parse_scores_errors() {
    assert_eq!(parse_scores(b"10 a\nnospace\n").err(), Some(ScoreFileError::InvalidData));
    assert_eq!(parse_scores(b"10 a\0\n").err(), Some(ScoreFileError::InvalidData));
    assert_eq!(parse_scores(b"10 \xff\n").err(), Some(ScoreFileError::InvalidData));
}

#[test]
fn format_then_parse_round_trip() {
    let v = vec![entry("10", "alice hi"), entry("-2", ""), entry("0", "z\u{e9}")];
    let text = format_scores(&v);
    assert_eq!(text, "10 alice hi\n-2 \n0 z\u{e9}\n".as_bytes().to_vec());
    let back = parse_scores(&text).ok().unwrap();
    assert_eq!(scores_of(&back), vec!["10", "-2", "0"]);
    assert_eq!(back[2].user_data, "z\u{e9}".as_bytes().to_vec());
}

#[test]
fn parse_i128_cases() {
    assert_eq!(parse_i128(b"0"), Some(0));
    assert_eq!(parse_i128(b"+17"), Some(17));
    assert_eq!(parse_i128(b"-17"), Some(-17));
    assert_eq!(parse_i128(b"170141183460469231731687303715884105727"), Some(i128::MAX));
    assert_eq!(parse_i128(b"-170141183460469231731687303715884105728"), Some(i128::MIN));
    assert_eq!(parse_i128(b"170141183460469231731687303715884105728"), None);
    assert_eq!(parse_i128(b"-170141183460469231731687303715884105729"), None);
    assert_eq!(parse_i128(b""), None);
    assert_eq!(parse_i128(b"-"), None);
    assert_eq!(parse_i128(b"+"), None);
    assert_eq!(parse_i128(b" 1"), None);
    assert_eq!(parse_i128(b"1x"), None);
}

#[test]
fn parse_cli_full() {
    let cli = parse_cli(&args(&["ugs", "-r", "-m", "20", "-d", "/tmp", "tetris", "100", "data"]))
        .ok()
        .unwrap();
    assert!(cli.reverse);
    assert_eq!(cli.max_scores, 20);
    assert_eq!(cli.user_prefix, Some(b"/tmp".to_vec()));
    assert_eq!(cli.score_key, b"tetris".to_vec());
    assert_eq!(cli.score_value, b"100".to_vec());
    assert_eq!(cli.score_data, b"data".to_vec());
    let cli = parse_cli(&args(&["ugs", "game", "5", "x"])).ok().unwrap();
    assert!(!cli.reverse);
    assert_eq!(cli.max_scores, usize::MAX);
    assert_eq!(cli.user_prefix, None);
    let cli = parse_cli(&args(&["ugs", "-m", "1000000000000000000000000", "g", "1", "d"])).ok().unwrap();
    assert_eq!(cli.max_scores, isize::MAX as usize);
}

#[test]
fn parse_cli_errors() {
    assert!(matches!(parse_cli(&args(&["ugs", "-h"])), Err(CliError::Help)));
    assert!(matches!(parse_cli(&args(&["ugs", "-m"])), Err(CliError::MissingMax)));
    assert!(matches!(parse_cli(&args(&["ugs", "-m", "x", "g", "1", "d"])), Err(CliError::UnparsableMax)));
    assert!(matches!(parse_cli(&args(&["ugs", "-m", "-1", "g", "1", "d"])), Err(CliError::NegativeMax)));
    assert!(matches!(parse_cli(&args(&["ugs", "-d"])), Err(CliError::MissingDir)));
    match parse_cli(&args(&["ugs", "-x", "g", "1", "d"])) {
        Err(CliError::InvalidOption { option }) => assert_eq!(option, b"-x".to_vec()),
        _ => panic!("expected an invalid option"),
    }
    assert!(matches!(parse_cli(&args(&["ugs", "g", "1"])), Err(CliError::WrongOperandCount)));
    assert!(matches!(parse_cli(&args(&["ugs", "g", "1", "d", "e"])), Err(CliError::WrongOperandCount)));
    assert!(matches!(parse_cli(&args(&[])), Err(CliError::WrongOperandCount)));
    assert!(!CliError::Help.shows_usage());
    assert!(!CliError::UnparsableMax.shows_usage());
    assert!(CliError::NegativeMax.shows_usage());
}

#[test]
fn prefix_and_privileges() {
    let shared = Some(b"/var/games".to_vec());
    let user = Some(b"/home/me".to_vec());
    assert_eq!(prefix_path(true, &shared, &user), Ok(b"/var/games".to_vec()));
    assert_eq!(prefix_path(true, &None, &user), Err(PrefixError::NoSharedGameDir));
    assert_eq!(prefix_path(false, &shared, &user), Ok(b"/home/me".to_vec()));
    assert_eq!(prefix_path(false, &shared, &None), Err(PrefixError::NoPrefix));
    assert_eq!(check_privileges(true, true), Err(BothSuidAndSgid));
    assert_eq!(check_privileges(true, false), Ok(true));
    assert_eq!(check_privileges(false, true), Ok(true));
    assert_eq!(check_privileges(false, false), Ok(false));
    assert_eq!(score_file_mode(true), 0o664);
    assert_eq!(score_file_mode(false), 0o644);
}

#[test]
fn user_id_choice() {
    assert_eq!(user_id_text(Some(b"alice"), 1000), b"alice".to_vec());
    assert_eq!(user_id_text(Some(b"al ice"), 1000), b"1000".to_vec());
    assert_eq!(user_id_text(Some(b"al\nice"), 7), b"7".to_vec());
    assert_eq!(user_id_text(Some(b""), 0), b"0".to_vec());
    assert_eq!(user_id_text(Some(b"\xff"), 42), b"42".to_vec());
    assert_eq!(user_id_text(None, 4294967295), b"4294967295".to_vec());
}

#[test]
fn entry_text_cuts_data() {
    assert_eq!(make_entry_text(b"bob", b"hello\nworld"), b"bob hello".to_vec());
    assert_eq!(make_entry_text(b"bob", b""), b"bob ".to_vec());
    let long = vec![b'x'; 2000];
    let text = make_entry_text(b"u", &long);
    assert_eq!(text.len(), 2 + 1024);
}

#[test]
fn lock_retry_policy() {
    assert_eq!(next_lock_step(0, false), (LockAction::Wait, 1));
    assert_eq!(next_lock_step(4, false), (LockAction::Wait, 5));
    assert_eq!(next_lock_step(5, false), (LockAction::RemoveStale, 0));
    assert_eq!(next_lock_step(2, true), (LockAction::RemoveStale, 0));
}
