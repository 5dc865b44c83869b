//! Syntax-highlighted HTML: role names become CSS classes, and highlight
//! events over a source buffer become line-wrapped, escaped, balanced markup.
//!
//! - [`classes`]: the table from capture indices to class attributes.
//! - [`escape`]: the four HTML entities, and the way back from them.
//! - [`events`]: region boundaries over a source, and when a stream of them
//!   is consistent.
//! - [`tokens`]: the markup of a source as tokens, and what holds of it.
//! - [`render`]: the renderer, from source, events and class table to bytes.
//! - [`text`]: when the rendered bytes are well-formed UTF-8.
//! - [`tokenizer`]: tree-sitter's highlighter, which supplies the events.
//! - [`pipeline`]: from the tokenizer's events to the finished text.
//! - [`registry`]: the languages that can be rendered, by identifier.

pub mod classes;
pub mod escape;
pub mod events;
pub mod pipeline;
pub mod registry;
pub mod render;
pub mod text;
pub mod tokenizer;
pub mod tokens;

pub use classes::{names_to_classes, NAMES};
pub use events::{HighlightEvent, RenderFailure};
pub use pipeline::{events_from_tokenizer, render_tokenized};
pub use registry::Languages;
pub use render::render_html;
pub use tokenizer::TokenizerEvent;
pub use tree_sitter_highlight::HighlightConfiguration;
