//! Link-like inline structures (`[text](<href> "title")` with an optional
//! prefix character), code spans delimited by runs of a marker character,
//! and the core rule that expands inline content into parsed nodes.
pub mod common;
pub mod generics;
pub mod node;
pub mod references;
pub mod parser;
