//! Tag suggestion helpers.

use vstd::prelude::*;

use super::generate::{json_array_span, json_span_ok};
use crate::text::{chars_to_string, push_str};

verus! {

/// The tags the model proposes for a card.
pub struct TagSuggestion {
    pub tags: Vec<String>,
}

/// Pulls the JSON array out of a model reply, as `extract_json` does.
pub fn extract_json_array(text: &str) -> (r: String)
    requires
        json_span_ok(text@),
    ensures
        r@ == json_array_span(text@),
{
    super::generate::extract_json(text)
}


/// The request that asks the model for one to five tags for a card.
pub fn tag_prompt(question: &str, answer: &str) -> (r: String)
    ensures
        r@ == "为以下问答卡片推荐 1-5 个最相关的标签（中文或英文）。\n\n问题："@ + question@ + "\n答案："@ + answer@ + "\n\n要求：\n1. 标签应该是简洁的关键词（1-3个词）\n2. 只输出 JSON 数组格式，例如 [\"标签1\", \"标签2\"]\n3. 不要输出任何解释，只输出 JSON"@,
{
    let mut out: Vec<char> = Vec::new();
    push_str(&mut out, "为以下问答卡片推荐 1-5 个最相关的标签（中文或英文）。\n\n问题：");
    push_str(&mut out, question);
    push_str(&mut out, "\n答案：");
    push_str(&mut out, answer);
    push_str(&mut out, "\n\n要求：\n1. 标签应该是简洁的关键词（1-3个词）\n2. 只输出 JSON 数组格式，例如 [\"标签1\", \"标签2\"]\n3. 不要输出任何解释，只输出 JSON");
    chars_to_string(out.as_slice())
}

} // verus!
