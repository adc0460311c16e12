use vstd::prelude::*;

verus! {

/// Reserved words and punctuation shared by the lexer and the parser.
pub const KW_IMPORT: &'static str = "import";

pub const KW_FN: &'static str = "fn";

pub const KW_MAIN: &'static str = "main";

pub const KW_LOG: &'static str = "log";

pub const KW_CALL: &'static str = "call";

pub const LPAREN: &'static str = "(";

pub const RPAREN: &'static str = ")";

pub const LBRACE: &'static str = "{";

pub const RBRACE: &'static str = "}";

pub const COMMA: &'static str = ",";

pub const EOF: &'static str = "end of file";

} // verus!
