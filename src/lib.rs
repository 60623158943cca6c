//! A parser for outline documents in the Org format: headlines and sections,
//! paragraphs with inline markup, lists, blocks, keyword lines, links and
//! footnotes. The tree is an arena of nodes whose text fields are views into
//! the input; it is walked as a sequence of start and end events and rendered
//! through a pluggable handler.
mod builder;
pub mod document;
pub mod elements;
pub mod inline;
pub mod lines;
pub mod objects;
pub mod parser;
pub mod render;
pub mod scan;
pub mod span;
pub mod title;
pub mod tools;

pub use document::{Document, Event};
pub use elements::Element;
pub use parser::{parse, parse_with_config};
pub use title::ParseConfig;
