use fsrs_lib::ai::generate::{extract_json, split_text};
use fsrs_lib::ai::tag::extract_json_array;
use fsrs_lib::cards::hash::{digest_fingerprint, question_hash, verify_hash};
use fsrs_lib::cards::types::{DraftState, Rating, State};
use fsrs_lib::tui::editor::parse_tags;

#[test]
fn test_extract_json() {
    let text = "Here is the result:\n[{\"question\": \"Q1\", \"answer\": \"A1\"}]\nDone.";
    let json = extract_json(text);
    assert_eq!(json, "[{\"question\": \"Q1\", \"answer\": \"A1\"}]");
}

#[test]
fn extract_json_without_brackets_keeps_text() {
    assert_eq!(extract_json("no array here"), "no array here");
    assert_eq!(extract_json_array("tags: [\"a\"] ok"), "[\"a\"]");
    assert_eq!(extract_json("]["), "");
    assert_eq!(extract_json("x]["), "");
}

#[test]
fn test_split_text() {
    let text = "Line 1.\nLine 2.\nLine 3.\n";
    let chunks = split_text(text, 12);
    assert!(chunks.len() >= 2);
}

#[test]
fn split_text_exact_chunks() {
    let text = "Line 1.\nLine 2.\nLine 3.\n";
    assert_eq!(split_text(text, 12), vec!["Line 1.\n", "Line 2.\n", "Line 3.\n"]);
    assert_eq!(split_text(text, 16), vec!["Line 1.\nLine 2.\n", "Line 3.\n"]);
    assert_eq!(split_text(text, 100), vec![text]);
    assert_eq!(split_text("一二三\n四", 5), vec!["一二三\n", "四\n"]);
}

#[test]
fn test_parse_tags_basic() {
    assert_eq!(parse_tags("Rust|语法"), vec!["Rust", "语法"]);
}

#[test]
fn test_parse_tags_empty() {
    assert!(parse_tags("").is_empty());
    assert!(parse_tags("   ").is_empty());
}

#[test]
fn test_parse_tags_with_spaces() {
    assert_eq!(
        parse_tags(" Rust | 语法 | 基础 "),
        vec!["Rust", "语法", "基础"]
    );
}

#[test]
fn test_parse_tags_filter_empty() {
    assert_eq!(parse_tags("Rust||语法|"), vec!["Rust", "语法"]);
}

#[test]
fn parse_tags_trims_unicode_whitespace() {
    assert_eq!(parse_tags("\u{3000}a\u{A0}|\tb\n"), vec!["a", "b"]);
}

#[test]
fn test_question_hash_deterministic() {
    let q = "Rust 中一条值同时只能有几个可变引用？";
    let h1 = question_hash(q);
    let h2 = question_hash(q);
    assert_eq!(h1, h2);
}

#[test]
fn test_question_hash_different_for_different_input() {
    let h1 = question_hash("问题A");
    let h2 = question_hash("问题B");
    assert_ne!(h1, h2);
}

#[test]
fn test_verify_hash() {
    let q = "什么是所有权？";
    let h = question_hash(q);
    assert!(verify_hash(q, &h));
    assert!(!verify_hash("别的问题", &h));
}

#[test]
fn question_hash_is_sha256_prefix_in_hex() {
    // SHA-256("abc") = ba7816bf8f01cfea414140de5dae2223...
    assert_eq!(question_hash("abc"), "ba7816bf8f01cfea");
    assert_eq!(question_hash(""), "e3b0c44298fc1c14");
}

#[test]
fn state_rating_and_draft_codes_round_trip() {
    for s in [State::New, State::Learning, State::Review, State::Relearning] {
        assert_eq!(State::from_i32(s.to_i32()), s);
    }
    assert_eq!(State::from_i32(7), State::New);
    for r in [Rating::Again, Rating::Hard, Rating::Good, Rating::Easy] {
        assert_eq!(Rating::from_i32(r.to_i32()), Some(r));
    }
    assert_eq!(Rating::from_i32(0), None);
    assert_eq!(Rating::from_i32(5), None);
    for d in [DraftState::Draft, DraftState::Approved, DraftState::Rejected] {
        assert_eq!(DraftState::from_state_str(d.as_str()), d);
    }
    assert_eq!(DraftState::from_state_str("other"), DraftState::Draft);
    assert_eq!(DraftState::Approved.as_str(), "approved");
}

#[test]
fn split_text_keeps_every_line_and_long_lines_stay_whole() {
    let text = "short\na line that is much longer than the limit\nx\r\ny";
    let chunks = split_text(text, 10);
    assert_eq!(chunks.concat(), "short\na line that is much longer than the limit\nx\ny\n");
    assert_eq!(chunks, vec!["short\n", "a line that is much longer than the limit\n", "x\ny\n"]);
    for c in &chunks {
        assert!(!c.is_empty());
        assert!(c.len() <= 10 || c.matches('\n').count() == 1);
    }
}

#[test]
fn parse_tags_again_gives_the_same_tags() {
    for input in ["Rust| 语法 ||x", "", " | ", "a|b|a"] {
        let tags = parse_tags(input);
        assert_eq!(parse_tags(&tags.join("|")), tags);
    }
}

#[test]
fn digest_fingerprint_is_first_eight_bytes_in_hex() {
    let digest = [0x00u8, 0x01, 0x0a, 0xab, 0xff, 0x10, 0x7f, 0x80, 0x99, 0x42];
    assert_eq!(digest_fingerprint(&digest), "00010aabff107f80");
}
