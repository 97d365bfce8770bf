use emacs_rust::fingerprint::{
    compute_digest, digest_hex, parse_args, replace_fingerprint, FingerprintArgsError,
    MissingFingerprint,
};

fn args(list: &[&str]) -> Vec<Vec<u8>> {
    list.iter().map(|s| s.as_bytes().to_vec()).collect()
}

#[test]
fn digest_of_known_inputs() {
    assert_eq!(
        digest_hex(&compute_digest(b"abc")),
        b"BA7816BF8F01CFEA414140DE5DAE2223B00361A396177A9CB410FF61F20015AD".to_vec()
    );
    assert_eq!(
        digest_hex(&compute_digest(b"")),
        b"E3B0C44298FC1C149AFBF4C8996FB92427AE41E4649B934CA495991B7852B855".to_vec()
    );
}

#[test]
fn digest_hex_formats_uppercase() {
    assert_eq!(digest_hex(&[0x00, 0x0f, 0xa0, 0xff]), b"000FA0FF".to_vec());
    assert_eq!(digest_hex(&[]), Vec::<u8>::new());
}

#[test]
fn parse_args_cases() {
    let a = parse_args(&args(&["mf", "file"])).ok().unwrap();
    assert!(!a.raw);
    assert_eq!(a.file, b"file".to_vec());
    let a = parse_args(&args(&["mf", "-r", "-r", "temacs"])).ok().unwrap();
    assert!(a.raw);
    assert_eq!(a.file, b"temacs".to_vec());
    assert!(matches!(parse_args(&args(&["mf", "-h", "x"])), Err(FingerprintArgsError::Help)));
    match parse_args(&args(&["mf", "-q", "x"])) {
        Err(FingerprintArgsError::InvalidOption { option }) => assert_eq!(option, b"-q".to_vec()),
        _ => panic!("expected an invalid option"),
    }
    assert!(matches!(parse_args(&args(&["mf"])), Err(FingerprintArgsError::WrongOperandCount)));
    assert!(matches!(parse_args(&args(&["mf", "a", "b"])), Err(FingerprintArgsError::WrongOperandCount)));
    assert!(matches!(parse_args(&args(&["mf", "a", "-r"])), Err(FingerprintArgsError::WrongOperandCount)));
    assert!(matches!(parse_args(&args(&[])), Err(FingerprintArgsError::WrongOperandCount)));
}

#[test]
fn replace_finds_every_occurrence() {
    let buf = b"xxABCyyABCABz";
    assert_eq!(replace_fingerprint(buf, b"ABC"), Ok(vec![2, 7]));
    assert_eq!(replace_fingerprint(b"aaaa", b"aa"), Ok(vec![0, 1, 2]));
    assert_eq!(replace_fingerprint(b"ABC", b"ABC"), Ok(vec![0]));
    assert_eq!(replace_fingerprint(b"AB", b"ABC"), Err(MissingFingerprint));
    assert_eq!(replace_fingerprint(b"xyz", b"ABC"), Err(MissingFingerprint));
}
