//! A flashcard library: cards written in Markdown or tab-separated text are
//! parsed into question/answer pairs, rendered for the terminal, checked for
//! quality, and matched against what is already stored so that a changed
//! question resets its review schedule.

pub mod text;
pub mod config;
pub mod cards;
pub mod parser;
pub mod tui;
pub mod ai;
pub mod commands;

use vstd::prelude::*;

verus! {

/// The AI helper subcommands.
#[allow(inconsistent_fields)]
pub enum AiCommands {
    /// Generate card drafts from a topic, a file, or (with PDF support) a document.
    Generate { source: String, pdf: bool },
    /// Suggest tags for one card, or for every untagged card with `batch`.
    Tag { card_id: Option<String>, batch: bool },
    /// Report answers that are too short, near-duplicate questions and stale cards.
    Health,
    /// Replace a one-line answer with a fuller one.
    Expand { card_id: String },
    /// List the cards most worth reviewing by AI access heat.
    ReviewSuggest,
}

} // verus!
