//! The request behind `ai expand`.

use vstd::prelude::*;

use crate::text::{chars_to_string, push_str};

verus! {

/// The request that asks the model for a more detailed answer to a card,
/// quoting its question and current answer.
pub fn expand_prompt(question: &str, answer: &str) -> (r: String)
    ensures
        r@ == "请为以下问题提供一个详细、准确的答案：\n\n问题："@ + question@ + "\n\n当前答案："@ + answer@ + "\n\n请提供一个更详细的版本："@,
{
    let mut out: Vec<char> = Vec::new();
    push_str(&mut out, "请为以下问题提供一个详细、准确的答案：\n\n问题：");
    push_str(&mut out, question);
    push_str(&mut out, "\n\n当前答案：");
    push_str(&mut out, answer);
    push_str(&mut out, "\n\n请提供一个更详细的版本：");
    chars_to_string(out.as_slice())
}

} // verus!
