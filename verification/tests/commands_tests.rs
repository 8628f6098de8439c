use fsrs_lib::ai::generate::{text_prompt, topic_prompt};
use fsrs_lib::ai::health::{find_duplicates, is_near, is_stale, jaccard_counts, short_answers, CardText};
use fsrs_lib::ai::tag::tag_prompt;
use fsrs_lib::cards::hash::question_hash;
use fsrs_lib::cards::types::Rating;
use fsrs_lib::commands::ai::expand_prompt;
use fsrs_lib::commands::edit::{apply_edit, edit_file_content, parse_edited_content, EditError};
use fsrs_lib::commands::make::{deck_content, has_frontmatter_tag, RawCard};
use fsrs_lib::commands::review::{
    effective_limit, next_review_label, parse_rating_choice, ReviewAction, ReviewChoice, ReviewEvent,
    ReviewSession,
};
use fsrs_lib::commands::review_drafts::{parse_draft_choice, DraftChoice, DraftTally};
use fsrs_lib::commands::update::{count_actions, plan_update, CardAction, StoredCard};
use fsrs_lib::parser::{parse_markdown, ParsedCard};

fn parsed(index: i32, question: &str) -> ParsedCard {
    ParsedCard {
        source_file: "notes.md".to_string(),
        card_index: index,
        question: question.to_string(),
        answer: "answer".to_string(),
        tags: vec![],
    }
}

fn stored(id: &str, index: i32, question: &str) -> StoredCard {
    StoredCard { id: id.to_string(), card_index: index, question_hash: question_hash(question) }
}

#[test]
fn plan_skips_same_question_updates_changed_inserts_new() {
    let cards = vec![parsed(0, "What is Rust?"), parsed(1, "What is Cargo now?"), parsed(2, "New one")];
    let db = vec![stored("a", 0, "What is Rust?"), stored("b", 1, "What is Cargo?")];
    let plan = plan_update(&cards, &db, false);
    assert_eq!(plan.len(), 3);
    assert!(matches!(plan[0], CardAction::Skip { slot: 0 }));
    match &plan[1] {
        CardAction::Update { slot, question_hash: h, reset_schedule } => {
            assert_eq!(*slot, 1);
            assert_eq!(h, &question_hash("What is Cargo now?"));
            assert!(*reset_schedule);
        }
        other => panic!("expected an update, got {:?}", other),
    }
    match &plan[2] {
        CardAction::Insert { question_hash: h } => assert_eq!(h, &question_hash("New one")),
        other => panic!("expected an insert, got {:?}", other),
    }
    assert_eq!(count_actions(&plan), (1, 1, 1));
}

#[test]
fn plan_keeps_schedule_when_asked() {
    let cards = vec![parsed(0, "Changed question")];
    let db = vec![stored("a", 0, "Old question")];
    let plan = plan_update(&cards, &db, true);
    assert!(matches!(plan[0], CardAction::Update { slot: 0, reset_schedule: false, .. }));
}

#[test]
fn plan_uses_last_stored_card_at_a_position() {
    let cards = vec![parsed(0, "Q")];
    let db = vec![stored("a", 0, "other"), stored("b", 0, "Q")];
    let plan = plan_update(&cards, &db, false);
    assert!(matches!(plan[0], CardAction::Skip { slot: 1 }));
}

#[test]
fn reimport_after_applying_plan_skips_everything() {
    let cards = vec![parsed(0, "A?"), parsed(1, "B?")];
    let mut db = vec![stored("a", 0, "old A?")];
    let plan = plan_update(&cards, &db, false);
    for (card, action) in cards.iter().zip(plan.iter()) {
        match action {
            CardAction::Skip { .. } => {}
            CardAction::Update { slot, question_hash: h, .. } => db[*slot].question_hash = h.clone(),
            CardAction::Insert { question_hash: h } => db.push(StoredCard {
                id: format!("new{}", card.card_index),
                card_index: card.card_index,
                question_hash: h.clone(),
            }),
        }
    }
    let again = plan_update(&cards, &db, false);
    assert!(again.iter().all(|a| matches!(a, CardAction::Skip { .. })));
    assert_eq!(count_actions(&again), (0, 0, 2));
}

#[test]
fn edit_file_layout_and_read_back() {
    let tags = vec!["rust".to_string(), "memory".to_string()];
    let text = edit_file_content("What is ownership?", "Line one\nLine two", &tags);
    assert_eq!(text, "# 问题\nWhat is ownership?\n\n# 答案\nLine one\nLine two\n\n# 标签\nrust, memory\n");
    let (q, a, t) = parse_edited_content(&text);
    assert_eq!(q, "What is ownership?");
    assert_eq!(a, "Line one\nLine two");
    assert_eq!(t, tags);
}

#[test]
fn edited_content_ignores_preamble_and_splits_tag_lines() {
    let (q, a, t) = parse_edited_content("note\n# 问题\n  Q1  \n# 答案\nA1\n\nA2\n# 标签\na, ,b\nc\n");
    assert_eq!(q, "Q1");
    assert_eq!(a, "A1\n\nA2");
    assert_eq!(t, vec!["a".to_string(), "b".to_string(), "c".to_string()]);
}

#[test]
fn apply_edit_refuses_empty_question() {
    let r = apply_edit(&question_hash("Q"), "# 问题\n   \n# 答案\nA\n");
    match r {
        Err(e) => {
            assert_eq!(e, EditError::EmptyQuestion);
            assert_eq!(e.message(), "问题不能为空");
        }
        Ok(_) => panic!("an empty question must be refused"),
    }
}

#[test]
fn apply_edit_resets_only_when_question_changes() {
    let old = question_hash("What is Rust?");
    let same = apply_edit(&old, "# 问题\nWhat is Rust?\n# 答案\nA new answer\n").ok().unwrap();
    assert!(!same.reset_schedule);
    assert_eq!(same.answer, "A new answer");
    assert_eq!(same.question_hash, old);
    let changed = apply_edit(&old, "# 问题\nWhat is Rust 2024?\n# 答案\nA\n").ok().unwrap();
    assert!(changed.reset_schedule);
    assert_eq!(changed.question_hash, question_hash("What is Rust 2024?"));
}

#[test]
fn unchanged_edit_file_round_trips() {
    let tags = vec!["a".to_string(), "b c".to_string()];
    let text = edit_file_content("Q line 1\nQ line 2", "Answer", &tags);
    let edit = apply_edit(&question_hash("Q line 1\nQ line 2"), &text).ok().unwrap();
    assert_eq!(edit.question, "Q line 1\nQ line 2");
    assert_eq!(edit.answer, "Answer");
    assert_eq!(edit.tags, tags);
    assert!(!edit.reset_schedule);
}

fn raw(q: &str, a: &str, tags: &[&str]) -> RawCard {
    RawCard { question: q.to_string(), answer: a.to_string(), tags: tags.iter().map(|t| t.to_string()).collect() }
}

#[test]
fn deck_for_new_file_has_frontmatter() {
    let cards = vec![raw("Q1", "A1", &["x", ""]), raw("Q2", "A2", &["x"]), raw("Q3", "A3", &["y"])];
    let text = deck_content(&cards, false, false);
    assert_eq!(
        text,
        "---\ntags: [x]\n---\n\n<!-- card -->\nQ:: Q1\nA:: A1\n<!-- card -->\n\n<!-- card -->\nQ:: Q2\nA:: A2\n<!-- card -->\n\n---\ntags: [y]\n---\n\n<!-- card -->\nQ:: Q3\nA:: A3\n<!-- card -->\n\n"
    );
}

#[test]
fn deck_for_existing_file() {
    let cards = vec![raw("Q", "A", &["t"])];
    assert_eq!(
        deck_content(&cards, true, false),
        "\n\n---\ntags: [t]\n---\n\n<!-- card -->\nQ:: Q\nA:: A\n<!-- card -->\n\n"
    );
    assert_eq!(
        deck_content(&cards, true, true),
        "\n\n---\ntags: [t]\n---\n\n<!-- card -->\nQ:: Q\nA:: A\n<!-- card -->\n\n"
    );
    let untagged = vec![raw("Q", "A", &[])];
    assert_eq!(deck_content(&untagged, false, false), "<!-- card -->\nQ:: Q\nA:: A\n<!-- card -->\n\n");
    assert_eq!(deck_content(&untagged, true, false), "\n<!-- card -->\nQ:: Q\nA:: A\n<!-- card -->\n\n");
    assert_eq!(
        deck_content(&untagged, true, true),
        "\n\n---\ntags: []\n---\n\n<!-- card -->\nQ:: Q\nA:: A\n<!-- card -->\n\n"
    );
}

#[test]
fn made_cards_come_back_with_their_own_tags() {
    let cards = vec![raw("Q1", "A1", &["t1"]), raw("Q2", "A2", &[]), raw("Q3", "A3", &["t1", "t2"])];
    let text = deck_content(&cards, false, false);
    let parsed = parse_markdown(&text, "deck.md");
    assert_eq!(parsed.len(), 3);
    assert_eq!((parsed[0].question.as_str(), parsed[0].answer.as_str()), ("Q1", "A1"));
    assert_eq!(parsed[0].tags, vec!["t1"]);
    assert_eq!((parsed[1].question.as_str(), parsed[1].answer.as_str()), ("Q2", "A2"));
    assert!(parsed[1].tags.is_empty());
    assert_eq!(parsed[2].tags, vec!["t1", "t2"]);
    let more = deck_content(&vec![raw("Q4", "A4", &[])], true, true);
    let all = parse_markdown(&format!("{}{}", text, more), "deck.md");
    assert_eq!(all.len(), 4);
    assert!(all[3].tags.is_empty());
}

#[test]
fn frontmatter_tag_detection() {
    assert!(has_frontmatter_tag("---\ntitle: x\ntags: [a]\n---\nbody"));
    assert!(!has_frontmatter_tag("---\ntitle: x\n---\ntags: [a]\n"));
    assert!(!has_frontmatter_tag("tags: [a]\n"));
    assert!(has_frontmatter_tag("intro\n  ---  \n  tags: [a]\n"));
}

#[test]
fn effective_limit_respects_daily_cap() {
    assert_eq!(effective_limit(20, 50, 10), 20);
    assert_eq!(effective_limit(20, 50, 40), 10);
    assert_eq!(effective_limit(20, 50, 60), 0);
    assert_eq!(effective_limit(-3, 50, 0), -3);
    assert_eq!(effective_limit(5, -10, 0), 0);
}

#[test]
fn rating_input_is_read_like_str_parse() {
    assert_eq!(parse_rating_choice("q\n"), ReviewChoice::Quit);
    assert_eq!(parse_rating_choice("  Q "), ReviewChoice::Quit);
    assert_eq!(parse_rating_choice("1\n"), ReviewChoice::Rate(Rating::Again));
    assert_eq!(parse_rating_choice("+2"), ReviewChoice::Rate(Rating::Hard));
    assert_eq!(parse_rating_choice("003"), ReviewChoice::Rate(Rating::Good));
    assert_eq!(parse_rating_choice("4"), ReviewChoice::Rate(Rating::Easy));
    assert_eq!(parse_rating_choice("5"), ReviewChoice::Invalid);
    assert_eq!(parse_rating_choice("0"), ReviewChoice::Invalid);
    assert_eq!(parse_rating_choice("-1"), ReviewChoice::Invalid);
    assert_eq!(parse_rating_choice("+"), ReviewChoice::Invalid);
    assert_eq!(parse_rating_choice(""), ReviewChoice::Invalid);
    assert_eq!(parse_rating_choice("qq"), ReviewChoice::Invalid);
    assert_eq!(parse_rating_choice("99999999999999999999"), ReviewChoice::Invalid);
}

#[test]
fn review_session_counts_recorded_ratings() {
    let mut s = ReviewSession::new();
    assert_eq!(s.step(ReviewEvent::CardMissing), ReviewAction::NextCard);
    assert_eq!(s.step(ReviewEvent::Answered(ReviewChoice::Rate(Rating::Good))), ReviewAction::Record(Rating::Good));
    assert_eq!(s.step(ReviewEvent::Answered(ReviewChoice::Invalid)), ReviewAction::NextCard);
    assert_eq!(s.step(ReviewEvent::Answered(ReviewChoice::Rate(Rating::Again))), ReviewAction::Record(Rating::Again));
    assert_eq!(s.reviewed, 2);
    assert_eq!(s.step(ReviewEvent::Answered(ReviewChoice::Quit)), ReviewAction::Stop);
    assert_eq!(s.reviewed, 2);
}

#[test]
fn next_review_labels() {
    assert_eq!(next_review_label(-2), "明天");
    assert_eq!(next_review_label(1), "明天");
    assert_eq!(next_review_label(2), "2天后");
    assert_eq!(next_review_label(365), "365天后");
    assert_eq!(next_review_label(i64::MAX), format!("{}天后", i64::MAX));
}

#[test]
fn draft_choices_and_tally() {
    assert_eq!(parse_draft_choice("y\n"), DraftChoice::Approve);
    assert_eq!(parse_draft_choice(" Y "), DraftChoice::Approve);
    assert_eq!(parse_draft_choice("n"), DraftChoice::Reject);
    assert_eq!(parse_draft_choice("N\n"), DraftChoice::Reject);
    assert_eq!(parse_draft_choice("q"), DraftChoice::Quit);
    assert_eq!(parse_draft_choice("\n"), DraftChoice::Skip);
    assert_eq!(parse_draft_choice("yes"), DraftChoice::Skip);
    let mut t = DraftTally::new();
    assert!(t.step(DraftChoice::Approve));
    assert!(t.step(DraftChoice::Skip));
    assert!(t.step(DraftChoice::Reject));
    assert!(t.step(DraftChoice::Approve));
    assert!(!t.step(DraftChoice::Quit));
    assert_eq!((t.approved, t.rejected, t.decided()), (2, 1, 3));
}

#[test]
fn prompts_quote_their_inputs() {
    let text = "Rust owns memory.";
    assert_eq!(
        text_prompt(text),
        format!(
            r#"你是一个记忆卡片生成器。请从以下文本中提取最重要的概念，生成问答对格式的抽认卡。

要求：
1. 每个概念生成一个问题和一个简洁准确的答案
2. 问题应该清晰具体，答案应该完整但不冗余
3. 只输出严格的 JSON 数组，每个元素包含 "question" 和 "answer" 字段
4. 如果文本没有值得提取的知识点，返回空数组 []
5. 不要输出任何解释，只输出 JSON

文本内容：
{text}"#
        )
    );
    let topic = "Rust 所有权";
    assert_eq!(
        topic_prompt(topic),
        format!(
            r#"你是一个记忆卡片生成器。请为以下主题生成 5-10 张高质量的问答卡片。

主题：{topic}

要求：
1. 覆盖该主题的核心概念
2. 问题应该清晰具体，答案应该完整但不冗余
3. 只输出严格的 JSON 数组，每个元素包含 "question" 和 "answer" 字段
4. 不要输出任何解释，只输出 JSON"#
        )
    );
    let (question, answer) = ("什么是借用？", "引用而不取得所有权");
    assert_eq!(
        tag_prompt(question, answer),
        format!(
            r#"为以下问答卡片推荐 1-5 个最相关的标签（中文或英文）。

问题：{question}
答案：{answer}

要求：
1. 标签应该是简洁的关键词（1-3个词）
2. 只输出 JSON 数组格式，例如 ["标签1", "标签2"]
3. 不要输出任何解释，只输出 JSON"#
        )
    );
    assert_eq!(
        expand_prompt(question, answer),
        format!(
            "请为以下问题提供一个详细、准确的答案：\n\n问题：{}\n\n当前答案：{}\n\n请提供一个更详细的版本：",
            question, answer
        )
    );
}

fn card(id: &str, q: &str, a: &str) -> CardText {
    CardText { id: id.to_string(), question: q.to_string(), answer: a.to_string() }
}

fn cards_of(v: &[CardText]) -> Vec<CardText> {
    v.iter().map(|c| card(&c.id, &c.question, &c.answer)).collect()
}

#[test]
fn short_answers_are_under_twenty_characters() {
    let cards = vec![
        card("1", "Q", "short"),
        card("2", "Q", "this answer is long enough"),
        card("3", "Q", "七个中文字符七个"),
        card("4", "Q", "12345678901234567890"),
        card("5", "Q", "中文六个字符"),
    ];
    assert_eq!(short_answers(&cards), vec![0, 2, 4]);
    let cjk = vec![card("6", "Q", "七个中文字符呀"), card("7", "Q", "二十个中文字符二十个中文字符二十个中文字")];
    assert_eq!(short_answers(&cards_of(&cjk)), vec![0]);
}

#[test]
fn similarity_counts_distinct_characters() {
    assert_eq!(jaccard_counts("abc", "abd"), (2, 4));
    assert_eq!(jaccard_counts("aab", "ab"), (2, 2));
    assert_eq!(jaccard_counts("", ""), (0, 0));
    assert!(is_near(5, 6));
    assert!(!is_near(4, 5));
    assert!(!is_near(0, 0));
}

#[test]
fn duplicates_are_pairs_in_order() {
    let qs = vec![
        "What is Rust ownership?".to_string(),
        "What is Rust ownership!".to_string(),
        "Completely different".to_string(),
    ];
    let d = find_duplicates(&qs);
    assert_eq!(d.len(), 1);
    assert_eq!((d[0].first, d[0].second), (0, 1));
    assert!(5 * d[0].shared > 4 * d[0].total);
}

#[test]
fn stale_means_over_thirty_days() {
    assert!(!is_stale(30));
    assert!(is_stale(31));
    assert!(!is_stale(-5));
}

#[test]
fn edit_round_trip_keeps_a_tag_with_an_inner_carriage_return() {
    let tags = vec!["a\rb".to_string(), "c".to_string()];
    let text = edit_file_content("Q", "A", &tags);
    let (q, a, t) = parse_edited_content(&text);
    assert_eq!((q.as_str(), a.as_str()), ("Q", "A"));
    assert_eq!(t, tags);
}
