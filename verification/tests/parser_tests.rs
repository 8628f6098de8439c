use fsrs_lib::parser::csv::{parse_csv, CsvError};
use fsrs_lib::parser::{cards_from_events, parse_markdown, MdEvent};

#[test]
fn test_parse_two_columns() {
    let csv = "问题一？\t答案一\n问题二？\t答案二";
    let cards = parse_csv(csv, "test.csv").unwrap();
    assert_eq!(cards.len(), 2);
    assert_eq!(cards[0].question, "问题一？");
    assert_eq!(cards[0].answer, "答案一");
    assert!(cards[0].tags.is_empty());
    assert_eq!(cards[1].question, "问题二？");
    assert_eq!(cards[1].answer, "答案二");
}

#[test]
fn test_parse_three_columns_with_tags() {
    let csv = "问题1?\t答案1\tRust|语法\n问题2?\t答案2\t算法";
    let cards = parse_csv(csv, "test.csv").unwrap();
    assert_eq!(cards.len(), 2);
    assert_eq!(cards[0].tags, vec!["Rust", "语法"]);
    assert_eq!(cards[1].tags, vec!["算法"]);
}

#[test]
fn test_escape_newlines() {
    let csv = "问题?\t第一行\\n第二行\\n第三行\t标签";
    let cards = parse_csv(csv, "test.csv").unwrap();
    assert_eq!(cards.len(), 1);
    assert_eq!(cards[0].answer, "第一行\n第二行\n第三行");
    assert_eq!(cards[0].tags, vec!["标签"]);
}

#[test]
fn test_skip_empty_and_column_error() {
    let csv = "问题?\t答案\n\n";
    let cards = parse_csv(csv, "test.csv").unwrap();
    assert_eq!(cards.len(), 1);

    let csv = "问题?\t答案\textra\tmore";
    let err = parse_csv(csv, "test.csv").unwrap_err();
    let msg = err.message();
    assert!(msg.contains("第 1 行") && msg.contains("实际 4"), "msg={}", msg);

    let csv = "问题?\t";
    let err = parse_csv(csv, "test.csv").unwrap_err();
    assert!(err.message().contains("答案列"));
}

#[test]
fn csv_cards_are_numbered_in_order_and_keep_source() {
    let csv = "\nq1\ta1\n  \nq2\ta2\tx | y\n";
    let cards = parse_csv(csv, "deck.csv").unwrap();
    assert_eq!(cards.len(), 2);
    assert_eq!(cards[0].card_index, 0);
    assert_eq!(cards[1].card_index, 1);
    assert_eq!(cards[1].source_file, "deck.csv");
    assert_eq!(cards[1].tags, vec!["x", "y"]);
}

#[test]
fn csv_errors_name_the_line() {
    assert_eq!(
        parse_csv("q\ta\n\tanswer", "f.csv").unwrap_err(),
        CsvError::EmptyQuestion { line: 2 }
    );
    assert_eq!(
        parse_csv("q\ta\nonly one column", "f.csv").unwrap_err(),
        CsvError::ColumnCount { line: 2, found: 1 }
    );
    assert_eq!(
        CsvError::EmptyQuestion { line: 12 }.message(),
        "CSV 第 12 行: 列为空"
    );
    assert_eq!(
        CsvError::ColumnCount { line: 3, found: 5 }.message(),
        "CSV 第 3 行列数错误: 期望 2 或 3，实际 5"
    );
}

#[test]
fn csv_first_bad_line_wins() {
    let err = parse_csv("a\t\nb\tc\td\te", "f.csv").unwrap_err();
    assert_eq!(err, CsvError::EmptyAnswer { line: 1 });
}

#[test]
fn csv_backslash_n_becomes_line_break_once() {
    let cards = parse_csv("q\ta\\\\nb", "f.csv").unwrap();
    assert_eq!(cards[0].answer, "a\\\nb");
}

#[test]
fn test_parse_simple_card() {
    let md = r#"<!-- card -->
Q:: 问题一？
A:: 答案一。
<!-- card -->"#;

    let cards = parse_markdown(md, "test.md");
    assert_eq!(cards.len(), 1);
    assert_eq!(cards[0].question, "问题一？");
    assert_eq!(cards[0].answer, "答案一。");
}

#[test]
fn test_parse_multiple_cards() {
    let md = r#"<!-- card -->
Q:: 第一个问题？
A:: 第一个答案。
<!-- card -->

<!-- card -->
Q:: 第二个问题？
A:: 第二个答案。
<!-- card -->"#;

    let cards = parse_markdown(md, "test.md");
    assert_eq!(cards.len(), 2);
    assert_eq!(cards[0].card_index, 0);
    assert_eq!(cards[1].card_index, 1);
}

#[test]
fn test_parse_with_frontmatter() {
    let md = r#"---
tags: [rust, ownership]
---

<!-- card -->
Q:: 什么是所有权？
A:: 每个值都有一个所有者。
<!-- card -->"#;

    let cards = parse_markdown(md, "test.md");
    assert_eq!(cards.len(), 1);
    assert_eq!(cards[0].tags, vec!["rust", "ownership"]);
}

#[test]
fn test_multiline_card_content() {
    let md = r#"<!-- card -->
Q:: 多行问题？
   第二行
A:: 多行答案
   答案第二行
   答案第三行
<!-- card -->"#;

    let cards = parse_markdown(md, "test.md");
    assert_eq!(cards.len(), 1);
    assert_eq!(cards[0].question, "多行问题？\n第二行");
    assert_eq!(cards[0].answer, "多行答案\n答案第二行\n答案第三行");
}

#[test]
fn test_skip_invalid_card() {
    let md = r#"<!-- card -->
Q:: 只有问题没有答案
<!-- card -->"#;

    let cards = parse_markdown(md, "test.md");
    assert_eq!(cards.len(), 0);
}

#[test]
fn malformed_block_does_not_affect_others() {
    let md = "<!-- card -->\nQ:: 坏卡\n<!-- card -->\n\n<!-- card -->\nQ:: 好问题\nA:: 好答案\n<!-- card -->\n";
    let cards = parse_markdown(md, "n.md");
    assert_eq!(cards.len(), 1);
    assert_eq!(cards[0].question, "好问题");
    assert_eq!(cards[0].card_index, 0);
}

#[test]
fn unclosed_block_at_end_is_read() {
    let md = "notes\n\n<!-- card -->\nQ:: q\nA:: a\n";
    let cards = parse_markdown(md, "n.md");
    assert_eq!(cards.len(), 1);
    assert_eq!(cards[0].answer, "a");
}

#[test]
fn events_are_read_as_the_scan_describes() {
    let events = vec![
        MdEvent::MetadataStart,
        MdEvent::Text("tags: [\"a\", 'b', ]\n".to_string()),
        MdEvent::MetadataEnd,
        MdEvent::Html("<!-- card -->\n".to_string()),
        MdEvent::Text("Q:: what is".to_string()),
        MdEvent::Code("x".to_string()),
        MdEvent::SoftBreak,
        MdEvent::Text("A:: one".to_string()),
        MdEvent::Text("two".to_string()),
        MdEvent::Html("<!-- card -->".to_string()),
    ];
    let cards = cards_from_events(&events, "e.md");
    assert_eq!(cards.len(), 1);
    assert_eq!(cards[0].question, "what is`x`");
    assert_eq!(cards[0].answer, "one\ntwo");
    assert_eq!(cards[0].tags, vec!["a", "b"]);
    assert_eq!(cards[0].source_file, "e.md");
}

#[test]
fn blank_line_inside_block_stays_a_line_break() {
    let md = "<!-- card -->\nQ:: q\nA:: line1\n\nline2\n<!-- card -->";
    let cards = parse_markdown(md, "t.md");
    assert_eq!(cards.len(), 1);
    assert_eq!(cards[0].question, "q");
    assert_eq!(cards[0].answer, "line1\nline2");
}

#[test]
fn question_and_answer_in_separate_paragraphs() {
    let md = "<!-- card -->\nQ:: q\n\nA:: a\n<!-- card -->";
    let cards = parse_markdown(md, "t.md");
    assert_eq!(cards.len(), 1);
    assert_eq!((cards[0].question.as_str(), cards[0].answer.as_str()), ("q", "a"));
}

#[test]
fn note_and_invalid_block_between_cards_change_nothing() {
    let c1 = "<!-- card -->\nQ:: one\nA:: 1\n<!-- card -->";
    let c2 = "<!-- card -->\nQ:: two\nA:: 2\n<!-- card -->";
    let plain = parse_markdown(&format!("{}\n\n{}", c1, c2), "t.md");
    for x in ["Just a note.", "<!-- card -->\nQ:: no answer\n<!-- card -->"] {
        let with_x = parse_markdown(&format!("{}\n\n{}\n\n{}", c1, x, c2), "t.md");
        assert_eq!(with_x.len(), 2);
        for (a, b) in plain.iter().zip(with_x.iter()) {
            assert_eq!((a.card_index, &a.question, &a.answer, &a.tags), (b.card_index, &b.question, &b.answer, &b.tags));
        }
    }
}
