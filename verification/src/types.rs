//! The data model: document nodes and terminal lines.

pub mod doc_element;
pub mod terminal_line;

pub use doc_element::DocElement;
pub use terminal_line::{InteractionType, TerminalLine};
