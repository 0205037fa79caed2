//! Conversion between a tag-delimited hierarchical markup format and a flat
//! comma-delimited tabular format.
//!
//! The forward flow lexes markup text into terms, parses the terms into a
//! tree with an explicit stack, and projects the tree onto tabular text.
//! The reverse flow ingests tabular text into a synthetic tree and serializes
//! the tree back to markup text.
#![verifier::loop_isolation(false)]

pub mod ingest;
pub mod laws;
pub mod lexer;
pub mod node;
pub mod parser;
pub mod project;
pub mod serialize;
pub mod term;
pub mod text;

pub use ingest::csv_parser;
pub use lexer::lexer;
pub use lexer::push_term;
pub use node::XMLNode;
pub use node::XMLTree;
pub use parser::parser;
pub use parser::parser_would_crash;
pub use project::csv_formatter;
pub use project::recursive_csv_format;
pub use serialize::recursive_xml_reverse_parse;
pub use serialize::xml_formatter;
pub use serialize::xml_reverse_parser;
pub use term::XMLTerm;
pub use text::usize_to_string;
