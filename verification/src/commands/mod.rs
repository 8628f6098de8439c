//! The decisions behind the commands: planning an update from parsed cards,
//! reading an edited card, composing a card file, and review limits.

pub mod edit;
pub mod update;
pub mod review;
pub mod review_drafts;
pub mod ai;
pub mod make;
