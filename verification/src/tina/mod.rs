//! The textual format of nets: reading it into a timed net and writing it out.
//!
//! `read_back` states that a written net is read back. The steps to it stand in `laws`
//! (the tokens that names, numbers and marks are read as), `pieces` and `written` (the
//! text of a net, piece by piece), `round_trip` (the lines that tokens are read as) and
//! `rebuild` (the net that the lines build).
pub mod errors;
pub mod export;
pub mod laws;
pub mod lexer;
pub mod parser;
pub mod pieces;
pub mod read_back;
pub mod reader;
pub mod rebuild;
pub mod round_trip;
pub mod token;
pub mod written;

pub use errors::ParserError;
pub use export::{Exporter, ExporterBuilder};
pub use parser::Parser;
pub use reader::Position;
