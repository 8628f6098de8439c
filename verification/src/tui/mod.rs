//! Terminal-facing text: tag entry and Markdown rendering.

pub mod editor;
pub mod markdown_render;
