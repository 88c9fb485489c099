use mini_web3::encoding::{
    append_bytes, append_decimal, append_json_string, append_signed_decimal, same_text,
};

fn text(bytes: Vec<u8>) -> String {
    String::from_utf8(bytes).unwrap()
}

#[test]
fn decimal_of_unsigned_numbers() {
    let mut out = Vec::new();
    append_decimal(&mut out, 0);
    assert_eq!(text(out), "0");
    let mut out = Vec::new();
    append_decimal(&mut out, 1234567890);
    assert_eq!(text(out), "1234567890");
    let mut out = b"x".to_vec();
    append_decimal(&mut out, u64::MAX);
    assert_eq!(text(out), format!("x{}", u64::MAX));
}

#[test]
fn decimal_of_signed_numbers() {
    for n in [0i64, 7, -7, 1700000000000, -1700000000000, i64::MAX, i64::MIN] {
        let mut out = Vec::new();
        append_signed_decimal(&mut out, n);
        assert_eq!(text(out), n.to_string());
    }
}

#[test]
fn append_bytes_concatenates() {
    let mut out = vec![1u8, 2];
    append_bytes(&mut out, &[3, 4, 5]);
    assert_eq!(out, vec![1, 2, 3, 4, 5]);
    append_bytes(&mut out, &[]);
    assert_eq!(out, vec![1, 2, 3, 4, 5]);
}

#[test]
fn json_string_escapes_like_serde_json() {
    let samples = [
        "",
        "plain",
        "quote \" and backslash \\",
        "tab\tnewline\ncr\rback\u{8}form\u{c}",
        "control \u{1} \u{1f} del \u{7f}",
        "slash / stays",
        "non-ascii é 黑 👨",
    ];
    for s in samples {
        let mut out = Vec::new();
        append_json_string(&mut out, s);
        assert_eq!(text(out), serde_json::to_string(s).unwrap(), "for {:?}", s);
    }
}

#[test]
fn json_string_exact_escapes() {
    let mut out = Vec::new();
    append_json_string(&mut out, "a\"b\\c\n\u{1}");
    assert_eq!(text(out), "\"a\\\"b\\\\c\\n\\u0001\"");
}

#[test]
fn same_text_compares_contents() {
    assert!(same_text("alice", "alice"));
    assert!(same_text("", ""));
    assert!(!same_text("alice", "alicf"));
    assert!(!same_text("alice", "alic"));
    assert!(!same_text("é", "e"));
}
