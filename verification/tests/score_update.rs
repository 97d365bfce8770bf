use emacs_rust::score_entry::ScoreEntry;
use emacs_rust::score_file::ScoreFileError;
use emacs_rust::score_update::add_score;

fn entry(score: &str, data: &str) -> ScoreEntry {
    ScoreEntry { score: score.as_bytes().to_vec(), user_data: data.as_bytes().to_vec() }
}

#[test]
fn add_score_ranks_highest_first() {
    let data = b"10 alice a\n30 bob b\n";
    let out = add_score(data, entry("20", "carol c"), false, usize::MAX).unwrap();
    assert_eq!(out, b"30 bob b\n20 carol c\n10 alice a\n".to_vec());
}

#[test]
fn add_score_reverse_ranks_lowest_first() {
    let data = b"10 alice a\n30 bob b\n";
    let out = add_score(data, entry("20", "carol c"), true, usize::MAX).unwrap();
    assert_eq!(out, b"10 alice a\n20 carol c\n30 bob b\n".to_vec());
}

#[test]
fn add_score_keeps_only_the_best() {
    let data = b"10 alice a\n30 bob b\n-5 dan d\n";
    let out = add_score(data, entry("20", "carol c"), false, 2).unwrap();
    assert_eq!(out, b"30 bob b\n20 carol c\n".to_vec());
    let out = add_score(data, entry("20", "carol c"), true, 2).unwrap();
    assert_eq!(out, b"20 carol c\n30 bob b\n".to_vec());
    let out = add_score(data, entry("20", "carol c"), false, 0).unwrap();
    assert_eq!(out, Vec::<u8>::new());
}

#[test]
fn add_score_keeps_ties_in_file_order() {
    let data = b"20 first\n20 second\n";
    let out = add_score(data, entry("20", "third"), false, usize::MAX).unwrap();
    assert_eq!(out, b"20 first\n20 second\n20 third\n".to_vec());
}

#[test]
fn add_score_to_an_empty_file() {
    let out = add_score(b"", entry("7", "me x"), false, usize::MAX).unwrap();
    assert_eq!(out, b"7 me x\n".to_vec());
}

#[test]
fn add_score_refuses_bad_files() {
    assert_eq!(add_score(b"no-space-here\n", entry("1", "a b"), false, 10), Err(ScoreFileError::InvalidData));
    assert_eq!(add_score(b"1 a\0b\n", entry("1", "a b"), false, 10), Err(ScoreFileError::InvalidData));
    assert_eq!(add_score(&[0x31, 0x20, 0xff, 0x0a], entry("1", "a b"), false, 10), Err(ScoreFileError::InvalidData));
}
