//! Greentext paste markup: a minimal tree of named elements that serializes
//! to escaped markup, and a line parser that turns one line of greentext at a
//! time into a paragraph element, carrying spoiler state across lines.

pub mod args;
pub mod content;
pub mod parser;
pub mod tag;
pub mod text;
