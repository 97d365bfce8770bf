use emacs_rust::fingerprint_source::{placeholder_from_source, PLACEHOLDER_LEN};

/// A C source in the shape of `lib/fingerprint.c`, listing `bytes` four to
/// a line.
fn source_with(bytes: &[&str]) -> String {
    let mut text = String::from(
        "/* Placeholder fingerprint.  */\n#include <config.h>\n#include \"fingerprint.h\"\n\nvolatile unsigned char fingerprint[] = {\n",
    );
    for chunk in bytes.chunks(4) {
        text.push_str("  ");
        text.push_str(&chunk.join(", "));
        text.push_str(",\n");
    }
    text.push_str("};\n");
    text
}

fn sample_bytes() -> Vec<String> {
    (0..32u32).map(|i| format!("0x{:02x}", (i * 7 + 3) % 256)).collect()
}

#[test]
fn reads_the_listed_placeholder() {
    let owned = sample_bytes();
    let bytes: Vec<&str> = owned.iter().map(|s| s.as_str()).collect();
    let expected: Vec<u8> = (0..32u32).map(|i| ((i * 7 + 3) % 256) as u8).collect();
    assert_eq!(placeholder_from_source(source_with(&bytes).as_bytes()), Some(expected));
    assert_eq!(PLACEHOLDER_LEN, 32);
}

#[test]
fn tolerates_spacing_case_underscores_and_crlf() {
    let mut text = String::from("unsigned char fingerprint[] =\r\n  {\r\n");
    for i in 0..16u32 {
        text.push_str(&format!("\t0x{:X} ,  0x0_{:x},\r\n", i + 0xA0, i));
    }
    text.push_str("};\r\n");
    let mut expected = Vec::new();
    for i in 0..16u32 {
        expected.push((i + 0xA0) as u8);
        expected.push(i as u8);
    }
    assert_eq!(placeholder_from_source(text.as_bytes()), Some(expected));
}

#[test]
fn lines_before_the_declaration_are_ignored() {
    let owned = sample_bytes();
    let bytes: Vec<&str> = owned.iter().map(|s| s.as_str()).collect();
    let text = format!("0x01, 0x02,\n{}", source_with(&bytes));
    assert_eq!(placeholder_from_source(text.as_bytes()).map(|v| v.len()), Some(32));
}

#[test]
fn wrong_count_gives_none() {
    let owned = sample_bytes();
    let bytes: Vec<&str> = owned.iter().map(|s| s.as_str()).collect();
    assert_eq!(placeholder_from_source(source_with(&bytes[..31]).as_bytes()), None);
    let mut more = bytes.clone();
    more.push("0x00");
    assert_eq!(placeholder_from_source(source_with(&more).as_bytes()), None);
    assert_eq!(placeholder_from_source(b"no declaration here\n"), None);
    assert_eq!(placeholder_from_source(b""), None);
}

#[test]
fn values_after_the_closing_brace_are_not_read() {
    let owned = sample_bytes();
    let bytes: Vec<&str> = owned.iter().map(|s| s.as_str()).collect();
    let text = format!("{}0x11, 0x22,\n", source_with(&bytes));
    assert_eq!(placeholder_from_source(text.as_bytes()).map(|v| v.len()), Some(32));
    let mut cut = String::from("char fingerprint[] = {\n0x01, 0x02 };\n");
    for _ in 0..30 {
        cut.push_str("0x03,\n");
    }
    assert_eq!(placeholder_from_source(cut.as_bytes()), None);
}

#[test]
fn invalid_literals_give_none() {
    let owned = sample_bytes();
    let mut bytes: Vec<&str> = owned.iter().map(|s| s.as_str()).collect();
    bytes[5] = "0x1G";
    assert_eq!(placeholder_from_source(source_with(&bytes).as_bytes()), None);
    bytes[5] = "0x100";
    assert_eq!(placeholder_from_source(source_with(&bytes).as_bytes()), None);
    bytes[5] = "0x";
    assert_eq!(placeholder_from_source(source_with(&bytes).as_bytes()), None);
}

#[test]
fn non_utf8_source_gives_none() {
    let owned = sample_bytes();
    let bytes: Vec<&str> = owned.iter().map(|s| s.as_str()).collect();
    let mut text = source_with(&bytes).into_bytes();
    text.insert(0, 0xff);
    assert_eq!(placeholder_from_source(&text), None);
}
