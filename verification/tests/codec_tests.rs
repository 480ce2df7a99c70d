//! The diff codec, the fingerprint, and the wire encodings on concrete
//! values.

use mdagent::config::{generate_connection_token, generate_connection_token_with_url,
    generate_token, token_from_time};
use mdagent::diff::{apply_line_diff, generate_line_diff, join_lines, split_lines, DiffOp};
use mdagent::engine::SyncEngine;
use mdagent::fingerprint::to_base36;
use mdagent::json::{diff_to_json, put_body};

fn round_trip(old: &str, new: &str) {
    let ops = generate_line_diff(old, new);
    let applied = apply_line_diff(old, &ops).expect("generated diff must apply");
    assert_eq!(applied, new);
}

#[test]
fn generate_apply_round_trip_plain() {
    round_trip("a\nb\nc", "a\nB\nc");
    round_trip("hello\nworld", "hello\nthere\nworld");
    round_trip("one\ntwo\nthree", "three\ntwo\none");
    round_trip("same\ntext", "same\ntext");
}

#[test]
fn generate_apply_round_trip_trailing_newlines() {
    // empty file, a single empty line, and trailing-newline variants
    round_trip("", "");
    round_trip("", "\n");
    round_trip("\n", "");
    round_trip("\n", "\n");
    round_trip("a", "a\n");
    round_trip("a\n", "a");
    round_trip("a\nb", "a\nb\n");
    round_trip("a\nb\n", "a\nb");
    round_trip("", "a\nb\n");
    round_trip("a\nb\n", "");
}

#[test]
fn round_trip_newline_only_file() {
    round_trip("\n", "x\n");
    round_trip("x", "\n");
    round_trip("\n\n\n", "\n");
}

#[test]
fn round_trip_unicode_lines() {
    round_trip("héllo\nwörld", "héllo\nthère\nwörld");
    round_trip("日本\n語", "日本\n語\nです");
}

fn kind_tag(op: &DiffOp) -> u8 {
    match op {
        DiffOp::Keep(_) => 1,
        DiffOp::Del(_) => 2,
        DiffOp::Ins(_) => 3,
    }
}

#[test]
fn generated_scripts_are_in_generator_form() {
    let cases = [
        ("a\nb\nc", "a\nB\nc"),
        ("", "x\ny"),
        ("x\ny", ""),
        ("one\ntwo", "two\nthree\nfour"),
        ("a\n", "a"),
    ];
    for (old, new) in cases {
        let ops = generate_line_diff(old, new);
        for w in ops.windows(2) {
            assert_ne!(kind_tag(&w[0]), kind_tag(&w[1]), "runs must be collapsed");
        }
        for op in &ops {
            match op {
                DiffOp::Keep(n) => assert!(*n >= 1),
                DiffOp::Del(n) => assert!(*n >= 1),
                DiffOp::Ins(xs) => {
                    assert!(!xs.is_empty());
                    for line in xs {
                        assert!(!line.contains('\n'), "no embedded newline in an insertion");
                    }
                },
            }
        }
    }
}

#[test]
fn equal_contents_collapse_to_one_keep() {
    let ops = generate_line_diff("a\nb", "a\nb");
    assert_eq!(ops.len(), 1);
    assert!(matches!(ops[0], DiffOp::Keep(2)));
    let ops = generate_line_diff("", "");
    assert_eq!(ops.len(), 1);
    assert!(matches!(ops[0], DiffOp::Keep(1)));
}

#[test]
fn generation_is_deterministic() {
    let a = generate_line_diff("a\nb\nc\nd", "a\nx\nc\ny");
    let b = generate_line_diff("a\nb\nc\nd", "a\nx\nc\ny");
    assert_eq!(diff_to_json(&a), diff_to_json(&b));
}

#[test]
fn apply_happy_path() {
    // keep one line, drop one, insert a replacement, keep the rest
    let ops = vec![
        DiffOp::Keep(1),
        DiffOp::Del(1),
        DiffOp::Ins(vec!["B".to_string()]),
        DiffOp::Keep(1),
    ];
    assert_eq!(apply_line_diff("a\nb\nc", &ops), Some("a\nB\nc".to_string()));
}

#[test]
fn apply_tolerant_tail() {
    let ops = vec![DiffOp::Keep(1)];
    assert_eq!(apply_line_diff("a\nb\nc", &ops), Some("a\nb\nc".to_string()));
}

#[test]
fn apply_length_mismatch_fails() {
    let ops = vec![DiffOp::Keep(4)];
    assert_eq!(apply_line_diff("a\nb\nc", &ops), None);
    let ops = vec![DiffOp::Keep(1), DiffOp::Del(3)];
    assert_eq!(apply_line_diff("a\nb\nc", &ops), None);
}

#[test]
fn split_and_join_lines() {
    let parts = split_lines("a\nb\nc");
    assert_eq!(parts, vec!["a".to_string(), "b".to_string(), "c".to_string()]);
    assert_eq!(split_lines(""), vec!["".to_string()]);
    assert_eq!(split_lines("\n"), vec!["".to_string(), "".to_string()]);
    assert_eq!(join_lines(&parts), "a\nb\nc");
}

#[test]
fn fingerprint_matches_peer() {
    assert_eq!(SyncEngine::simple_hash("hello\nworld"), "j968ey");
    assert_eq!(SyncEngine::simple_hash("a\nb\nc"), "1hkgeq");
    assert_eq!(SyncEngine::simple_hash(""), "0");
    assert_eq!(SyncEngine::simple_hash("x"), "3c");
    assert_eq!(SyncEngine::simple_hash("test content"), "peuajv");
    assert_eq!(SyncEngine::simple_hash("\n"), "a");
}

#[test]
fn fingerprint_deterministic_and_base36() {
    let a = SyncEngine::simple_hash("some content");
    let b = SyncEngine::simple_hash("some content");
    assert_eq!(a, b);
    let mut chars = a.chars();
    let first = chars.next().unwrap();
    assert!(first == '-' || first.is_ascii_alphanumeric());
    for c in chars {
        assert!(c.is_ascii_digit() || (c.is_ascii_lowercase() && c.is_ascii_alphabetic()));
    }
}

#[test]
fn base36_digits() {
    assert_eq!(to_base36(0), "0");
    assert_eq!(to_base36(35), "z");
    assert_eq!(to_base36(36), "10");
    assert_eq!(to_base36(-1), "-1");
    assert_eq!(to_base36(-36), "-10");
    assert_eq!(to_base36(i32::MIN), "-zik0zk");
    assert_eq!(to_base36(i32::MAX), "zik0zj");
}

#[test]
fn diff_json_wire_form() {
    let ops = vec![
        DiffOp::Keep(1),
        DiffOp::Del(2),
        DiffOp::Ins(vec!["B\"x".to_string(), "C\\y".to_string()]),
    ];
    assert_eq!(
        diff_to_json(&ops),
        "[{\"eq\":1},{\"del\":2},{\"ins\":[\"B\\\"x\",\"C\\\\y\"]}]"
    );
    assert_eq!(diff_to_json(&Vec::new()), "[]");
}

#[test]
fn diff_json_matches_reference_encoder() {
    // the same value serialized through the JSON library the peer uses
    let ops = vec![
        DiffOp::Keep(3),
        DiffOp::Ins(vec!["tab\there".to_string(), "ctl\u{1}end".to_string()]),
    ];
    let reference: serde_json::Value =
        serde_json::from_str("[{\"eq\":3},{\"ins\":[\"tab\\there\",\"ctl\\u0001end\"]}]")
            .unwrap();
    assert_eq!(diff_to_json(&ops), reference.to_string());
}

#[test]
fn put_body_wire_form() {
    let body = put_body("line1\nline2", &None, &None);
    assert_eq!(body, "{\"content\":\"line1\\nline2\"}");
    let ops = vec![DiffOp::Keep(1)];
    let body = put_body("x", &Some("abc".to_string()), &Some(ops));
    assert_eq!(body, "{\"content\":\"x\",\"diff\":[{\"eq\":1}],\"oldHash\":\"abc\"}");
}

#[test]
fn connection_tokens() {
    assert_eq!(
        generate_connection_token(7779, "secret"),
        "aHR0cDovL2xvY2FsaG9zdDo3Nzc5fHNlY3JldA=="
    );
    assert_eq!(
        generate_connection_token_with_url("https://abc.example", "s3cr3t"),
        "aHR0cHM6Ly9hYmMuZXhhbXBsZXxzM2NyM3Q="
    );
}

#[test]
fn server_tokens_are_hex() {
    assert_eq!(token_from_time(0x1a2b, 0xff), "1a2bff");
    assert_eq!(token_from_time(0, 0), "00");
    let t = generate_token();
    assert!(!t.is_empty());
    for c in t.chars() {
        assert!(c.is_ascii_hexdigit() && !c.is_ascii_uppercase());
    }
}
