use vstd::prelude::*;
use vstd::string::*;
use crate::grammar;
use crate::lexer::{
    kind_of, lemma_scan_bounds, lemma_ws_end_bounds, next_token_result, pos_is, scan_at, ws_end,
    LexError, Lexer, Pos, Scan, Token, TokenView,
};

verus! {

broadcast use vstd::seq::group_seq_axioms;

/// The body of `main`: its statements in order.
#[derive(Debug, Clone)]
pub struct Program {
    pub stmts: Vec<Stmt>,
}

/// A named callable unit with its statements.
#[derive(Debug, Clone)]
pub struct Function {
    pub name: String,
    pub body: Vec<Stmt>,
}

/// A statement: emit expressions, or call a function by name.
#[derive(Debug, Clone)]
pub enum Stmt {
    Log(Vec<Expr>),
    Call { name: String },
}

/// An expression; the grammar produces string literals only so far.
#[derive(Debug)]
pub enum Expr {
    Str(String),
    Var(String),
    Int(i32),
    Add(Box<Expr>, Box<Expr>),
}

impl Clone for Expr {
    fn clone(&self) -> (r: Expr)
        decreases self,
    {
        match self {
            Expr::Str(s) => Expr::Str(s.clone()),
            Expr::Var(s) => Expr::Var(s.clone()),
            Expr::Int(n) => Expr::Int(*n),
            Expr::Add(a, b) => Expr::Add(Box::new((**a).clone()), Box::new((**b).clone())),
        }
    }
}

/// A failure of the parser, or of the lexer under it.
#[derive(Debug, Clone)]
pub enum ParseError {
    Lex(LexError),
    Unexpected { found: Token, expected: &'static str, pos: Pos },
    IntOverflow { literal: String, pos: Pos },
}

impl From<LexError> for ParseError {
    fn from(e: LexError) -> (r: ParseError)
        ensures
            r == ParseError::Lex(e),
    {
        ParseError::Lex(e)
    }
}

impl vstd::std_specs::convert::FromSpecImpl<LexError> for ParseError {
    open spec fn obeys_from_spec() -> bool {
        true
    }

    open spec fn from_spec(e: LexError) -> ParseError {
        ParseError::Lex(e)
    }
}

/// Names of what the parser expected, as its errors report them.
pub const EXPECT_PATH: &'static str = "a path string after `import`";

pub const EXPECT_LOG_ARG: &'static str = "a string \"...\" after log(";

pub const EXPECT_NO_IMPORT: &'static str = "no `import` in an included file (only in main program)";

pub const EXPECT_CALL_NAME: &'static str = "function name after `call`";

pub const EXPECT_NOT_MAIN: &'static str = "function (hors `main`)";

pub const EXPECT_FN_NAME: &'static str = "nom de fonction";

pub const EXPECT_STMT: &'static str = "`log`";

/// The parser seen from outside: the current token, the byte where it starts,
/// and the lexer's offset after it.
pub struct Cursor {
    pub tok: TokenView,
    pub at: int,
    pub next: int,
}

/// Why a parse fails: the lexer failed when called at an offset, or a token
/// was found where another construct was expected.
pub enum Failure {
    Lex(int),
    Unexpected(TokenView, Seq<char>, int),
}

/// A statement that the grammar produces.
pub enum StmtShape {
    Log(Seq<char>),
    Call(Seq<char>),
}

/// Reads the token after the current one.
pub open spec fn advance(bs: Seq<u8>, c: Cursor) -> Result<Cursor, Failure> {
    let j = ws_end(bs, c.next);
    match scan_at(bs, j) {
        Scan::Found(t, k) => Ok(Cursor { tok: t, at: j, next: k }),
        _ => Err(Failure::Lex(c.next)),
    }
}

/// Steps over the current token when it has the variant of `want`.
pub open spec fn expect_step(bs: Seq<u8>, c: Cursor, want: TokenView, name: Seq<char>) -> Result<
    Cursor,
    Failure,
> {
    if kind_of(c.tok) == kind_of(want) {
        advance(bs, c)
    } else {
        Err(Failure::Unexpected(c.tok, name, c.at))
    }
}

/// `log ( "<text>" )`
pub open spec fn log_step(bs: Seq<u8>, c: Cursor) -> Result<(StmtShape, Cursor), Failure> {
    match expect_step(bs, c, TokenView::Log, grammar::KW_LOG@) {
        Err(f) => Err(f),
        Ok(c1) => match expect_step(bs, c1, TokenView::LParen, grammar::LPAREN@) {
            Err(f) => Err(f),
            Ok(c2) => match c2.tok {
                TokenView::Str(s) => match advance(bs, c2) {
                    Err(f) => Err(f),
                    Ok(c3) => match expect_step(bs, c3, TokenView::RParen, grammar::RPAREN@) {
                        Err(f) => Err(f),
                        Ok(c4) => Ok((StmtShape::Log(s), c4)),
                    },
                },
                _ => Err(Failure::Unexpected(c2.tok, EXPECT_LOG_ARG@, c2.at)),
            },
        },
    }
}

/// `call <name> ( )`
pub open spec fn call_step(bs: Seq<u8>, c: Cursor) -> Result<(StmtShape, Cursor), Failure> {
    match expect_step(bs, c, TokenView::Call, grammar::KW_CALL@) {
        Err(f) => Err(f),
        Ok(c1) => match c1.tok {
            TokenView::Ident(n) => match advance(bs, c1) {
                Err(f) => Err(f),
                Ok(c2) => match expect_step(bs, c2, TokenView::LParen, grammar::LPAREN@) {
                    Err(f) => Err(f),
                    Ok(c3) => match expect_step(bs, c3, TokenView::RParen, grammar::RPAREN@) {
                        Err(f) => Err(f),
                        Ok(c4) => Ok((StmtShape::Call(n), c4)),
                    },
                },
            },
            _ => Err(Failure::Unexpected(c1.tok, EXPECT_CALL_NAME@, c1.at)),
        },
    }
}

/// One statement: a `log` or a `call`.
pub open spec fn stmt_step(bs: Seq<u8>, c: Cursor) -> Result<(StmtShape, Cursor), Failure> {
    match c.tok {
        TokenView::Call => call_step(bs, c),
        TokenView::Log => log_step(bs, c),
        _ => Err(Failure::Unexpected(c.tok, EXPECT_STMT@, c.at)),
    }
}

/// Puts `st` in front of the statements of a successful parse.
pub open spec fn prepend(st: Seq<StmtShape>, r: Result<(Seq<StmtShape>, Cursor), Failure>) -> Result<
    (Seq<StmtShape>, Cursor),
    Failure,
> {
    match r {
        Ok((rest, c)) => Ok((st + rest, c)),
        Err(f) => Err(f),
    }
}

/// Puts `ps` in front of the paths of a successful parse.
pub open spec fn prepend_paths(
    ps: Seq<Seq<char>>,
    r: Result<(Seq<Seq<char>>, Cursor), Failure>,
) -> Result<(Seq<Seq<char>>, Cursor), Failure> {
    match r {
        Ok((rest, c)) => Ok((ps + rest, c)),
        Err(f) => Err(f),
    }
}

proof fn lemma_prepend_twice(
    a: Seq<StmtShape>,
    b: Seq<StmtShape>,
    r: Result<(Seq<StmtShape>, Cursor), Failure>,
)
    ensures
        prepend(a, prepend(b, r)) == prepend(a + b, r),
{
    if let Ok((rest, c)) = r {
        assert(a + (b + rest) =~= (a + b) + rest);
    }
}

proof fn lemma_prepend_paths_twice(
    a: Seq<Seq<char>>,
    b: Seq<Seq<char>>,
    r: Result<(Seq<Seq<char>>, Cursor), Failure>,
)
    ensures
        prepend_paths(a, prepend_paths(b, r)) == prepend_paths(a + b, r),
{
    if let Ok((rest, c)) = r {
        assert(a + (b + rest) =~= (a + b) + rest);
    }
}

/// Statements up to a `}`, which stays current.
pub open spec fn block_step(bs: Seq<u8>, c: Cursor) -> Result<(Seq<StmtShape>, Cursor), Failure>
    decreases bs.len() - c.at,
{
    if c.tok is RBrace {
        Ok((seq![], c))
    } else {
        match stmt_step(bs, c) {
            Err(f) => Err(f),
            Ok((st, c2)) => if c.at < c2.at <= bs.len() {
                prepend(seq![st], block_step(bs, c2))
            } else {
                // never taken: a statement moves past its first token
                Err(Failure::Lex(c.at))
            },
        }
    }
}

/// Statements of an included file up to its end, where `import` is refused.
pub open spec fn sub_step(bs: Seq<u8>, c: Cursor) -> Result<(Seq<StmtShape>, Cursor), Failure>
    decreases bs.len() - c.at,
{
    if c.tok is Eof {
        Ok((seq![], c))
    } else if c.tok is Import {
        Err(Failure::Unexpected(c.tok, EXPECT_NO_IMPORT@, c.at))
    } else {
        match stmt_step(bs, c) {
            Err(f) => Err(f),
            Ok((st, c2)) => if c.at < c2.at <= bs.len() {
                prepend(seq![st], sub_step(bs, c2))
            } else {
                // never taken: a statement moves past its first token
                Err(Failure::Lex(c.at))
            },
        }
    }
}

/// Leading `import "<path>"` items.
pub open spec fn imports_step(bs: Seq<u8>, c: Cursor) -> Result<(Seq<Seq<char>>, Cursor), Failure>
    decreases bs.len() - c.at,
{
    if c.tok is Import {
        match advance(bs, c) {
            Err(f) => Err(f),
            Ok(c1) => match c1.tok {
                TokenView::Str(p) => match advance(bs, c1) {
                    Err(f) => Err(f),
                    Ok(c2) => if c.at < c2.at <= bs.len() {
                        prepend_paths(seq![p], imports_step(bs, c2))
                    } else {
                        // never taken: an import moves past two tokens
                        Err(Failure::Lex(c.at))
                    },
                },
                _ => Err(Failure::Unexpected(c1.tok, EXPECT_PATH@, c1.at)),
            },
        }
    } else {
        Ok((seq![], c))
    }
}

/// A whole main file: imports, then `fn main ( ) { ... }`, then the end.
pub open spec fn main_step(bs: Seq<u8>, c: Cursor) -> Result<
    (Seq<Seq<char>>, Seq<StmtShape>),
    Failure,
> {
    match imports_step(bs, c) {
        Err(f) => Err(f),
        Ok((ps, c1)) => match expect_step(bs, c1, TokenView::Fn, grammar::KW_FN@) {
            Err(f) => Err(f),
            Ok(c2) => match expect_step(bs, c2, TokenView::Main, grammar::KW_MAIN@) {
                Err(f) => Err(f),
                Ok(c3) => match body_step(bs, c3) {
                    Err(f) => Err(f),
                    Ok((ss, c4)) => match expect_step(bs, c4, TokenView::Eof, grammar::EOF@) {
                        Err(f) => Err(f),
                        Ok(_) => Ok((ps, ss)),
                    },
                },
            },
        },
    }
}

/// `( ) { <statements> }`
pub open spec fn body_step(bs: Seq<u8>, c: Cursor) -> Result<(Seq<StmtShape>, Cursor), Failure> {
    match expect_step(bs, c, TokenView::LParen, grammar::LPAREN@) {
        Err(f) => Err(f),
        Ok(c1) => match expect_step(bs, c1, TokenView::RParen, grammar::RPAREN@) {
            Err(f) => Err(f),
            Ok(c2) => match expect_step(bs, c2, TokenView::LBrace, grammar::LBRACE@) {
                Err(f) => Err(f),
                Ok(c3) => match block_step(bs, c3) {
                    Err(f) => Err(f),
                    Ok((ss, c4)) => match expect_step(bs, c4, TokenView::RBrace, grammar::RBRACE@) {
                        Err(f) => Err(f),
                        Ok(c5) => Ok((ss, c5)),
                    },
                },
            },
        },
    }
}

/// `<name> ( ) { <statements> }`, where the name is not `main`.
pub open spec fn function_step(bs: Seq<u8>, c: Cursor) -> Result<
    (Seq<char>, Seq<StmtShape>, Cursor),
    Failure,
> {
    match c.tok {
        TokenView::Ident(n) => match advance(bs, c) {
            Err(f) => Err(f),
            Ok(c1) => match body_step(bs, c1) {
                Err(f) => Err(f),
                Ok((ss, c2)) => Ok((n, ss, c2)),
            },
        },
        TokenView::Main => Err(Failure::Unexpected(c.tok, EXPECT_NOT_MAIN@, c.at)),
        _ => Err(Failure::Unexpected(c.tok, EXPECT_FN_NAME@, c.at)),
    }
}

/// `st` is the statement that `sh` describes.
pub open spec fn stmt_is(st: Stmt, sh: StmtShape) -> bool {
    match sh {
        StmtShape::Log(s) => match st {
            Stmt::Log(es) => es@.len() == 1 && match es@[0] {
                Expr::Str(x) => x@ == s,
                _ => false,
            },
            _ => false,
        },
        StmtShape::Call(n) => match st {
            Stmt::Call { name } => name@ == n,
            _ => false,
        },
    }
}

/// Each statement of `v` is the one that `sh` describes at its index.
pub open spec fn stmts_are(v: Seq<Stmt>, sh: Seq<StmtShape>) -> bool {
    &&& v.len() == sh.len()
    &&& forall|k: int| 0 <= k < v.len() ==> stmt_is(#[trigger] v[k], sh[k])
}

/// Each string of `v` holds the text of `p` at its index.
pub open spec fn strings_are(v: Seq<String>, p: Seq<Seq<char>>) -> bool {
    &&& v.len() == p.len()
    &&& forall|k: int| 0 <= k < v.len() ==> (#[trigger] v[k])@ == p[k]
}

/// `e` is the error that `f` describes, in the input `bs` of file `file`.
pub open spec fn error_is(bs: Seq<u8>, file: Seq<char>, e: ParseError, f: Failure) -> bool {
    match f {
        Failure::Lex(i) => match e {
            ParseError::Lex(le) => next_token_result(bs, file, i, Err(le)),
            _ => false,
        },
        Failure::Unexpected(t, n, at) => match e {
            ParseError::Unexpected { found, expected, pos } => found@ == t && expected@ == n
                && pos_is(pos, file, bs, at),
            _ => false,
        },
    }
}

/// The outcome of a rule that yields one statement.
pub open spec fn stmt_outcome(
    bs: Seq<u8>,
    file: Seq<char>,
    spec: Result<(StmtShape, Cursor), Failure>,
    r: Result<Stmt, ParseError>,
    after: Cursor,
) -> bool {
    match spec {
        Ok((sh, c)) => match r {
            Ok(st) => stmt_is(st, sh) && after == c,
            Err(_) => false,
        },
        Err(f) => match r {
            Ok(_) => false,
            Err(e) => error_is(bs, file, e, f),
        },
    }
}

/// The outcome of a rule that yields a list of statements.
pub open spec fn stmts_outcome(
    bs: Seq<u8>,
    file: Seq<char>,
    spec: Result<(Seq<StmtShape>, Cursor), Failure>,
    r: Result<Vec<Stmt>, ParseError>,
    after: Cursor,
) -> bool {
    match spec {
        Ok((sh, c)) => match r {
            Ok(v) => stmts_are(v@, sh) && after == c,
            Err(_) => false,
        },
        Err(f) => match r {
            Ok(_) => false,
            Err(e) => error_is(bs, file, e, f),
        },
    }
}

/// Recursive descent over a lexer with one token of lookahead.
pub struct Parser<'a> {
    lx: Lexer<'a>,
    cur: Token,
    cur_pos: Pos,
}

impl<'a> Parser<'a> {
    /// The input of the lexer under the parser.
    pub closed spec fn bytes(&self) -> Seq<u8> {
        self.lx.bytes()
    }

    /// The file name that positions carry.
    pub closed spec fn file_name(&self) -> Seq<char> {
        self.lx.file_name()
    }

    /// The current token, where it starts, and where the lexer stands.
    pub closed spec fn cursor(&self) -> Cursor {
        Cursor { tok: self.cur@, at: self.cur_pos.byte as int, next: self.lx.cursor() }
    }

    /// The current token is the one the lexer read last, and starts where
    /// its position says.
    pub closed spec fn wf(&self) -> bool {
        &&& self.lx.wf()
        &&& pos_is(self.cur_pos, self.lx.file_name(), self.lx.bytes(), self.cur_pos.byte as int)
        &&& self.cur_pos.byte <= self.lx.cursor() <= self.lx.bytes().len()
        &&& (self.cur@ is Eof || self.cur_pos.byte < self.lx.cursor())
        &&& (self.cur@ is Eof ==> self.cur_pos.byte == self.lx.cursor() == self.lx.bytes().len())
    }

    /// A parser whose current token is the first token of `lx`.
    pub fn new(lx: Lexer<'a>) -> (r: Result<Parser<'a>, ParseError>)
        requires
            lx.wf(),
        ensures
            match advance(lx.bytes(), Cursor { tok: TokenView::Eof, at: lx.cursor(), next: lx.cursor() }) {
                Ok(c) => match r {
                    Ok(p) => p.wf() && p.cursor() == c && p.bytes() == lx.bytes()
                        && p.file_name() == lx.file_name(),
                    Err(_) => false,
                },
                Err(f) => match r {
                    Ok(_) => false,
                    Err(e) => error_is(lx.bytes(), lx.file_name(), e, f),
                },
            },
    {
        let mut lx = lx;
        let ghost bs = lx.bytes();
        let ghost i = lx.cursor();
        proof {
            lx.lemma_cursor_bounds();
            lemma_ws_end_bounds(bs, i);
            lemma_scan_bounds(bs, ws_end(bs, i));
        }
        match lx.next_token() {
            Ok((cur, cur_pos)) => Ok(Parser { lx, cur, cur_pos }),
            Err(e) => Err(ParseError::Lex(e)),
        }
    }

    /// Moves one token forward.
    fn bump(&mut self) -> (r: Result<(), ParseError>)
        requires
            old(self).wf(),
        ensures
            final(self).bytes() == old(self).bytes(),
            final(self).file_name() == old(self).file_name(),
            match advance(old(self).bytes(), old(self).cursor()) {
                Ok(c) => r is Ok && final(self).wf() && final(self).cursor() == c,
                Err(f) => match r {
                    Ok(_) => false,
                    Err(e) => error_is(old(self).bytes(), old(self).file_name(), e, f),
                },
            },
            r is Ok ==> final(self).cursor().at >= old(self).cursor().next,
    {
        let ghost bs = self.bytes();
        let ghost i = self.lx.cursor();
        proof {
            lemma_ws_end_bounds(bs, i);
            lemma_scan_bounds(bs, ws_end(bs, i));
        }
        match self.lx.next_token() {
            Ok((t, p)) => {
                self.cur = t;
                self.cur_pos = p;
                Ok(())
            },
            Err(e) => Err(ParseError::Lex(e)),
        }
    }

    /// The error for the current token where `name` was expected.
    fn unexpected(&self, name: &'static str) -> (e: ParseError)
        requires
            self.wf(),
        ensures
            error_is(
                self.bytes(),
                self.file_name(),
                e,
                Failure::Unexpected(self.cursor().tok, name@, self.cursor().at),
            ),
    {
        ParseError::Unexpected { found: self.cur.duplicate(), expected: name, pos: self.cur_pos.duplicate() }
    }

    /// Steps over the current token when its variant is that of `want`.
    fn expect(&mut self, want: Token, name: &'static str) -> (r: Result<(), ParseError>)
        requires
            old(self).wf(),
        ensures
            final(self).bytes() == old(self).bytes(),
            final(self).file_name() == old(self).file_name(),
            match expect_step(old(self).bytes(), old(self).cursor(), want@, name@) {
                Ok(c) => r is Ok && final(self).wf() && final(self).cursor() == c,
                Err(f) => match r {
                    Ok(_) => false,
                    Err(e) => error_is(old(self).bytes(), old(self).file_name(), e, f),
                },
            },
            r is Ok ==> final(self).cursor().at >= old(self).cursor().next,
            kind_of(old(self).cursor().tok) != kind_of(want@) ==> *final(self) == *old(self),
    {
        if self.cur.kind() == want.kind() {
            self.bump()
        } else {
            Err(self.unexpected(name))
        }
    }

    /// `log ( "<text>" )`
    fn parse_log(&mut self) -> (r: Result<Stmt, ParseError>)
        requires
            old(self).wf(),
        ensures
            final(self).bytes() == old(self).bytes(),
            final(self).file_name() == old(self).file_name(),
            stmt_outcome(
                old(self).bytes(),
                old(self).file_name(),
                log_step(old(self).bytes(), old(self).cursor()),
                r,
                final(self).cursor(),
            ),
            r is Ok ==> final(self).wf() && final(self).cursor().at > old(self).cursor().at,
    {
        match self.expect(Token::Log, grammar::KW_LOG) {
            Ok(()) => {},
            Err(e) => return Err(e),
        }
        match self.expect(Token::LParen, grammar::LPAREN) {
            Ok(()) => {},
            Err(e) => return Err(e),
        }
        let s = match &self.cur {
            Token::Str(txt) => txt.clone(),
            _ => return Err(self.unexpected(EXPECT_LOG_ARG)),
        };
        match self.bump() {
            Ok(()) => {},
            Err(e) => return Err(e),
        }
        match self.expect(Token::RParen, grammar::RPAREN) {
            Ok(()) => {},
            Err(e) => return Err(e),
        }
        Ok(Stmt::Log(vec![Expr::Str(s)]))
    }

    /// `call <name> ( )`
    fn parse_call(&mut self) -> (r: Result<Stmt, ParseError>)
        requires
            old(self).wf(),
        ensures
            final(self).bytes() == old(self).bytes(),
            final(self).file_name() == old(self).file_name(),
            stmt_outcome(
                old(self).bytes(),
                old(self).file_name(),
                call_step(old(self).bytes(), old(self).cursor()),
                r,
                final(self).cursor(),
            ),
            r is Ok ==> final(self).wf() && final(self).cursor().at > old(self).cursor().at,
    {
        match self.expect(Token::Call, grammar::KW_CALL) {
            Ok(()) => {},
            Err(e) => return Err(e),
        }
        let name = match &self.cur {
            Token::Ident(s) => s.clone(),
            _ => return Err(self.unexpected(EXPECT_CALL_NAME)),
        };
        match self.bump() {
            Ok(()) => {},
            Err(e) => return Err(e),
        }
        match self.expect(Token::LParen, grammar::LPAREN) {
            Ok(()) => {},
            Err(e) => return Err(e),
        }
        match self.expect(Token::RParen, grammar::RPAREN) {
            Ok(()) => {},
            Err(e) => return Err(e),
        }
        Ok(Stmt::Call { name })
    }

    /// One statement: a `log` or a `call`.
    fn parse_stmt(&mut self) -> (r: Result<Stmt, ParseError>)
        requires
            old(self).wf(),
        ensures
            final(self).bytes() == old(self).bytes(),
            final(self).file_name() == old(self).file_name(),
            stmt_outcome(
                old(self).bytes(),
                old(self).file_name(),
                stmt_step(old(self).bytes(), old(self).cursor()),
                r,
                final(self).cursor(),
            ),
            r is Ok ==> final(self).wf() && final(self).cursor().at > old(self).cursor().at,
            !(old(self).cursor().tok is Call || old(self).cursor().tok is Log) ==> *final(self)
                == *old(self),
    {
        match &self.cur {
            Token::Call => self.parse_call(),
            Token::Log => self.parse_log(),
            _ => Err(self.unexpected(EXPECT_STMT)),
        }
    }

    /// Statements up to the closing `}`, which stays current.
    fn parse_block(&mut self) -> (r: Result<Vec<Stmt>, ParseError>)
        requires
            old(self).wf(),
        ensures
            final(self).bytes() == old(self).bytes(),
            final(self).file_name() == old(self).file_name(),
            stmts_outcome(
                old(self).bytes(),
                old(self).file_name(),
                block_step(old(self).bytes(), old(self).cursor()),
                r,
                final(self).cursor(),
            ),
            r is Ok ==> final(self).wf() && final(self).cursor().at >= old(self).cursor().at,
    {
        let ghost bs = self.bytes();
        let ghost c0 = self.cursor();
        let ghost mut done: Seq<StmtShape> = seq![];
        let mut body: Vec<Stmt> = Vec::new();
        proof {
            assert(prepend(done, block_step(bs, c0)) == block_step(bs, c0)) by {
                if let Ok((rest, c)) = block_step(bs, c0) {
                    assert(done + rest =~= rest);
                }
            }
        }
        while self.cur.kind() != 11
            invariant
                self.wf(),
                self.bytes() == bs,
                bs == old(self).bytes(),
                self.file_name() == old(self).file_name(),
                c0 == old(self).cursor(),
                self.cursor().at >= c0.at,
                stmts_are(body@, done),
                block_step(bs, c0) == prepend(done, block_step(bs, self.cursor())),
            decreases bs.len() - self.cursor().at,
        {
            let ghost c = self.cursor();
            let ghost sh = match stmt_step(bs, c) {
                Ok((sh, _)) => sh,
                Err(_) => StmtShape::Call(seq![]),
            };
            let st = match self.parse_stmt() {
                Ok(st) => st,
                Err(e) => return Err(e),
            };
            proof {
                lemma_prepend_twice(done, seq![sh], block_step(bs, self.cursor()));
                done = done + seq![sh];
            }
            let ghost prev = body@;
            body.push(st);
            proof {
                assert(forall|k: int| 0 <= k < prev.len() ==> body@[k] == prev[k]);
            }
        }
        proof {
            assert(done + seq![] =~= done);
        }
        Ok(body)
    }

    /// `( ) { <statements> }`
    fn parse_fn_body_block(&mut self) -> (r: Result<Vec<Stmt>, ParseError>)
        requires
            old(self).wf(),
        ensures
            final(self).bytes() == old(self).bytes(),
            final(self).file_name() == old(self).file_name(),
            stmts_outcome(
                old(self).bytes(),
                old(self).file_name(),
                body_step(old(self).bytes(), old(self).cursor()),
                r,
                final(self).cursor(),
            ),
            r is Ok ==> final(self).wf(),
    {
        match self.expect(Token::LParen, grammar::LPAREN) {
            Ok(()) => {},
            Err(e) => return Err(e),
        }
        match self.expect(Token::RParen, grammar::RPAREN) {
            Ok(()) => {},
            Err(e) => return Err(e),
        }
        match self.expect(Token::LBrace, grammar::LBRACE) {
            Ok(()) => {},
            Err(e) => return Err(e),
        }
        let body = match self.parse_block() {
            Ok(b) => b,
            Err(e) => return Err(e),
        };
        match self.expect(Token::RBrace, grammar::RBRACE) {
            Ok(()) => {},
            Err(e) => return Err(e),
        }
        Ok(body)
    }

    /// `<name> ( ) { <statements> }`, refusing `main` as the name.
    pub fn parse_function(&mut self) -> (r: Result<Function, ParseError>)
        requires
            old(self).wf(),
        ensures
            final(self).bytes() == old(self).bytes(),
            final(self).file_name() == old(self).file_name(),
            match function_step(old(self).bytes(), old(self).cursor()) {
                Ok((n, ss, c)) => match r {
                    Ok(f) => f.name@ == n && stmts_are(f.body@, ss) && final(self).cursor() == c
                        && final(self).wf(),
                    Err(_) => false,
                },
                Err(f) => match r {
                    Ok(_) => false,
                    Err(e) => error_is(old(self).bytes(), old(self).file_name(), e, f),
                },
            },
    {
        let name = match &self.cur {
            Token::Ident(s) => s.clone(),
            Token::Main => return Err(self.unexpected(EXPECT_NOT_MAIN)),
            _ => return Err(self.unexpected(EXPECT_FN_NAME)),
        };
        match self.bump() {
            Ok(()) => {},
            Err(e) => return Err(e),
        }
        let body = match self.parse_fn_body_block() {
            Ok(b) => b,
            Err(e) => return Err(e),
        };
        Ok(Function { name, body })
    }

    /// Reads the leading `import "<path>"` items; there may be none.
    pub fn parse_imports(&mut self) -> (r: Result<Vec<String>, ParseError>)
        requires
            old(self).wf(),
        ensures
            final(self).bytes() == old(self).bytes(),
            final(self).file_name() == old(self).file_name(),
            match imports_step(old(self).bytes(), old(self).cursor()) {
                Ok((ps, c)) => match r {
                    Ok(v) => strings_are(v@, ps) && final(self).cursor() == c && final(self).wf(),
                    Err(_) => false,
                },
                Err(f) => match r {
                    Ok(_) => false,
                    Err(e) => error_is(old(self).bytes(), old(self).file_name(), e, f),
                },
            },
    {
        let ghost bs = self.bytes();
        let ghost c0 = self.cursor();
        let ghost mut done: Seq<Seq<char>> = seq![];
        let mut paths: Vec<String> = Vec::new();
        proof {
            assert(prepend_paths(done, imports_step(bs, c0)) == imports_step(bs, c0)) by {
                if let Ok((rest, c)) = imports_step(bs, c0) {
                    assert(done + rest =~= rest);
                }
            }
        }
        while self.cur.kind() == 0
            invariant
                self.wf(),
                self.bytes() == bs,
                bs == old(self).bytes(),
                self.file_name() == old(self).file_name(),
                c0 == old(self).cursor(),
                strings_are(paths@, done),
                imports_step(bs, c0) == prepend_paths(done, imports_step(bs, self.cursor())),
            decreases bs.len() - self.cursor().at,
        {
            let ghost c = self.cursor();
            match self.bump() {
                Ok(()) => {},
                Err(e) => return Err(e),
            }
            let p = match &self.cur {
                Token::Str(s) => s.clone(),
                _ => return Err(self.unexpected(EXPECT_PATH)),
            };
            match self.bump() {
                Ok(()) => {},
                Err(e) => return Err(e),
            }
            proof {
                lemma_prepend_paths_twice(done, seq![p@], imports_step(bs, self.cursor()));
                done = done + seq![p@];
            }
            let ghost prev = paths@;
            paths.push(p);
            proof {
                assert(forall|k: int| 0 <= k < prev.len() ==> paths@[k] == prev[k]);
            }
        }
        proof {
            assert(done + seq![] =~= done);
        }
        Ok(paths)
    }

    /// Parses a main file: imports, `fn main ( ) { ... }`, then the end of
    /// the input. Returns the import paths and the program.
    pub fn parse_main_program(&mut self) -> (r: Result<(Vec<String>, Program), ParseError>)
        requires
            old(self).wf(),
        ensures
            match main_step(old(self).bytes(), old(self).cursor()) {
                Ok((ps, ss)) => match r {
                    Ok((v, prog)) => strings_are(v@, ps) && stmts_are(prog.stmts@, ss),
                    Err(_) => false,
                },
                Err(f) => match r {
                    Ok(_) => false,
                    Err(e) => error_is(old(self).bytes(), old(self).file_name(), e, f),
                },
            },
    {
        let imports = match self.parse_imports() {
            Ok(v) => v,
            Err(e) => return Err(e),
        };
        match self.expect(Token::Fn, grammar::KW_FN) {
            Ok(()) => {},
            Err(e) => return Err(e),
        }
        match self.expect(Token::Main, grammar::KW_MAIN) {
            Ok(()) => {},
            Err(e) => return Err(e),
        }
        let stmts = match self.parse_fn_body_block() {
            Ok(b) => b,
            Err(e) => return Err(e),
        };
        match self.expect(Token::Eof, grammar::EOF) {
            Ok(()) => {},
            Err(e) => return Err(e),
        }
        Ok((imports, Program { stmts }))
    }

    /// Parses an included file: statements up to the end of the input, with
    /// `import` refused anywhere.
    pub fn parse_sub_programs(&mut self) -> (r: Result<Vec<Stmt>, ParseError>)
        requires
            old(self).wf(),
        ensures
            match sub_step(old(self).bytes(), old(self).cursor()) {
                Ok((ss, _)) => match r {
                    Ok(v) => stmts_are(v@, ss),
                    Err(_) => false,
                },
                Err(f) => match r {
                    Ok(_) => false,
                    Err(e) => error_is(old(self).bytes(), old(self).file_name(), e, f),
                },
            },
    {
        let ghost bs = self.bytes();
        let ghost c0 = self.cursor();
        let ghost mut done: Seq<StmtShape> = seq![];
        let mut stmts: Vec<Stmt> = Vec::new();
        proof {
            assert(prepend(done, sub_step(bs, c0)) == sub_step(bs, c0)) by {
                if let Ok((rest, c)) = sub_step(bs, c0) {
                    assert(done + rest =~= rest);
                }
            }
        }
        while self.cur.kind() != 13
            invariant
                self.wf(),
                self.bytes() == bs,
                bs == old(self).bytes(),
                self.file_name() == old(self).file_name(),
                c0 == old(self).cursor(),
                stmts_are(stmts@, done),
                sub_step(bs, c0) == prepend(done, sub_step(bs, self.cursor())),
            decreases bs.len() - self.cursor().at,
        {
            if self.cur.kind() == 0 {
                return Err(self.unexpected(EXPECT_NO_IMPORT));
            }
            let ghost c = self.cursor();
            let ghost sh = match stmt_step(bs, c) {
                Ok((sh, _)) => sh,
                Err(_) => StmtShape::Call(seq![]),
            };
            let st = match self.parse_stmt() {
                Ok(st) => st,
                Err(e) => return Err(e),
            };
            proof {
                lemma_prepend_twice(done, seq![sh], sub_step(bs, self.cursor()));
                done = done + seq![sh];
            }
            let ghost prev = stmts@;
            stmts.push(st);
            proof {
                assert(forall|k: int| 0 <= k < prev.len() ==> stmts@[k] == prev[k]);
            }
        }
        proof {
            assert(done + seq![] =~= done);
            lemma_ws_end_bounds(bs, bs.len() as int);
        }
        match self.expect(Token::Eof, grammar::EOF) {
            Ok(()) => {},
            Err(e) => return Err(e),
        }
        Ok(stmts)
    }
}

} // verus!
