use emacs_rust::hexl::{decode_line, encode_line, hex_value, parse_args, Mode};

fn args(list: &[&str]) -> Vec<Vec<u8>> {
    list.iter().map(|s| s.as_bytes().to_vec()).collect()
}

#[test]
fn parse_args_defaults_to_stdin_encode() {
    let opts = parse_args(&args(&["hexl"])).ok().unwrap();
    assert_eq!(opts.mode, Mode::Encode);
    assert!(!opts.iso);
    assert_eq!(opts.group_mask, 1);
    assert_eq!(opts.files, vec![b"-".to_vec()]);
}

#[test]
fn parse_args_switches_and_files() {
    let opts = parse_args(&args(&["hexl", "-de", "-iso", "-group-by-32-bits", "a", "-hex", "b"]))
        .ok()
        .unwrap();
    assert_eq!(opts.mode, Mode::Decode);
    assert!(opts.iso);
    assert_eq!(opts.group_mask, 3);
    assert_eq!(opts.files, vec![b"a".to_vec(), b"b".to_vec()]);
    let opts = parse_args(&args(&["hexl", "-un", "-group-by-8-bits"])).ok().unwrap();
    assert_eq!(opts.mode, Mode::Decode);
    assert_eq!(opts.group_mask, 0);
    let opts = parse_args(&args(&["hexl", "-group-by-64-bits", "-group-by-16-bits"])).ok().unwrap();
    assert_eq!(opts.group_mask, 1);
    let opts = parse_args(&args(&["hexl", "-group-by-64-bits"])).ok().unwrap();
    assert_eq!(opts.group_mask, 7);
}

#[test]
fn parse_args_double_dash_takes_rest_as_files() {
    let opts = parse_args(&args(&["hexl", "-iso", "--", "-de", "-bogus", "-"])).ok().unwrap();
    assert_eq!(opts.mode, Mode::Encode);
    assert!(opts.iso);
    assert_eq!(opts.files, vec![b"-de".to_vec(), b"-bogus".to_vec(), b"-".to_vec()]);
}

#[test]
fn parse_args_single_dash_is_a_file() {
    let opts = parse_args(&args(&["hexl", "-"])).ok().unwrap();
    assert_eq!(opts.files, vec![b"-".to_vec()]);
}

#[test]
fn parse_args_rejects_unknown_switch() {
    let err = parse_args(&args(&["hexl-prog", "x", "-bogus", "-de"])).err().unwrap();
    assert_eq!(err.progname, b"hexl-prog".to_vec());
    assert_eq!(err.switch, b"-bogus".to_vec());
}

#[test]
fn hex_value_digits() {
    assert_eq!(hex_value(b'0'), Some(0));
    assert_eq!(hex_value(b'9'), Some(9));
    assert_eq!(hex_value(b'a'), Some(10));
    assert_eq!(hex_value(b'F'), Some(15));
    assert_eq!(hex_value(b'g'), None);
    assert_eq!(hex_value(b' '), None);
}

#[test]
fn encode_full_line() {
    let chunk: Vec<u8> = (0x30u8..0x40).collect();
    let line = encode_line(0, &chunk, false, 1);
    assert_eq!(
        line,
        b"00000000: 3031 3233 3435 3637 3839 3a3b 3c3d 3e3f  0123456789:;<=>?\n".to_vec()
    );
}

#[test]
fn encode_short_line_pads_columns() {
    let line = encode_line(0x10, &[0x41, 0x00, 0x7f], false, 1);
    assert_eq!(
        line,
        b"00000010: 4100 7f                                  A..\n".to_vec()
    );
}

#[test]
fn encode_groups_and_iso_glyphs() {
    let line = encode_line(0x123456789, &[0xe9, 0x20], true, 0);
    let mut expected = b"123456789: e9 20 ".to_vec();
    expected.extend_from_slice(&[b' '; 3 * 14]);
    expected.extend_from_slice(" \u{e9} \n".as_bytes());
    assert_eq!(line, expected);
    let line = encode_line(0, &[0xe9], false, 3);
    assert_eq!(line, b"00000000: e9                                   .\n".to_vec());
}

#[test]
fn decode_full_line_round_trip() {
    let chunk: Vec<u8> = (0u8..16).map(|i| i * 17).collect();
    for mask in [0usize, 1, 3, 7] {
        let line = encode_line(0x20, &chunk, true, mask);
        let text = &line[..line.len() - 1];
        assert_eq!(decode_line(text, 1), chunk);
        assert_eq!(decode_line(text, mask), chunk);
    }
}

#[test]
fn decode_short_block_reads_glyphs_that_look_like_hex() {
    let line = encode_line(0, b"ab", false, 1);
    let text = &line[..line.len() - 1];
    assert_eq!(decode_line(text, 1), vec![0x61, 0x62, 0xab]);
}

#[test]
fn decode_line_edge_cases() {
    assert_eq!(decode_line(b"no-space-here", 1), Vec::<u8>::new());
    assert_eq!(decode_line(b"00000000: 4g41", 1), Vec::<u8>::new());
    assert_eq!(decode_line(b"00000000:    41   42 4", 1), vec![0x41, 0x42]);
    assert_eq!(decode_line(b"x: AbCd", 1), vec![0xab, 0xcd]);
    assert_eq!(decode_line(b"   ", 1), Vec::<u8>::new());
}

#[test]
fn whole_dump_of_full_lines_reads_back() {
    let data: Vec<u8> = (0..48u32).map(|i| (i * 37 % 256) as u8).collect();
    for iso in [false, true] {
        for mask in [0usize, 1, 3, 7] {
            let mut text = Vec::new();
            for (k, chunk) in data.chunks(16).enumerate() {
                text.extend(encode_line((k as u64) * 16, chunk, iso, mask));
            }
            let mut back = Vec::new();
            for line in text.split(|b| *b == b'\n') {
                back.extend(decode_line(line, 1));
            }
            assert_eq!(back, data);
        }
    }
}

#[test]
fn short_last_line_reads_back_unless_its_text_looks_like_digits() {
    // Read back exactly: one byte; text that does not start with two digits.
    for data in [vec![0x00u8], vec![0x41], b"G1".to_vec(), b"xAB".to_vec(), b"A".to_vec()] {
        let text = encode_line(0, &data, false, 1);
        let line = &text[..text.len() - 1];
        assert_eq!(decode_line(line, 1), data);
    }
    // Read back with more: the text column starts, after its spaces, with
    // two hexadecimal digits.
    let text = encode_line(0, b"AB", false, 1);
    assert_eq!(decode_line(&text[..text.len() - 1], 1), vec![0x41, 0x42, 0xab]);
    let text = encode_line(0, b" AB", false, 1);
    assert_eq!(decode_line(&text[..text.len() - 1], 1), vec![0x20, 0x41, 0x42, 0xab]);
}
