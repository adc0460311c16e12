//! Front end of the gaufre language: a lexer producing positioned tokens, a
//! recursive-descent parser for the main-file and included-file grammars, and
//! the import bookkeeping used by the driver.

pub mod grammar;
pub mod text;
pub mod lexer;
pub mod parser;
pub mod imports;
pub mod laws;
