use vstd::prelude::*;
use vstd::string::*;
use vstd::utf8::*;
use crate::grammar;
use crate::text::{ascii_edge, lemma_ascii_edge_is_boundary};

verus! {

broadcast use vstd::seq::group_seq_axioms;

/// A lexical unit of the language.
#[derive(Debug, Clone, PartialEq, Eq)]
pub enum Token {
    Import,
    Fn,
    Main,
    Log,
    Call,
    Ident(String),
    Number(String),
    Str(String),
    LParen,
    RParen,
    LBrace,
    RBrace,
    Comma,
    Eof,
}

/// A token with its payload seen as characters.
pub enum TokenView {
    Import,
    Fn,
    Main,
    Log,
    Call,
    Ident(Seq<char>),
    Number(Seq<char>),
    Str(Seq<char>),
    LParen,
    RParen,
    LBrace,
    RBrace,
    Comma,
    Eof,
}

impl View for Token {
    type V = TokenView;

    open spec fn view(&self) -> TokenView {
        match self {
            Token::Import => TokenView::Import,
            Token::Fn => TokenView::Fn,
            Token::Main => TokenView::Main,
            Token::Log => TokenView::Log,
            Token::Call => TokenView::Call,
            Token::Ident(s) => TokenView::Ident(s@),
            Token::Number(s) => TokenView::Number(s@),
            Token::Str(s) => TokenView::Str(s@),
            Token::LParen => TokenView::LParen,
            Token::RParen => TokenView::RParen,
            Token::LBrace => TokenView::LBrace,
            Token::RBrace => TokenView::RBrace,
            Token::Comma => TokenView::Comma,
            Token::Eof => TokenView::Eof,
        }
    }
}

/// The variant of a token, payload left aside.
pub open spec fn kind_of(t: TokenView) -> int {
    match t {
        TokenView::Import => 0,
        TokenView::Fn => 1,
        TokenView::Main => 2,
        TokenView::Log => 3,
        TokenView::Call => 4,
        TokenView::Ident(_) => 5,
        TokenView::Number(_) => 6,
        TokenView::Str(_) => 7,
        TokenView::LParen => 8,
        TokenView::RParen => 9,
        TokenView::LBrace => 10,
        TokenView::RBrace => 11,
        TokenView::Comma => 12,
        TokenView::Eof => 13,
    }
}

impl Token {
    /// The variant of the token as a number, payload left aside.
    pub fn kind(&self) -> (r: u8)
        ensures
            r as int == kind_of(self@),
    {
        match self {
            Token::Import => 0,
            Token::Fn => 1,
            Token::Main => 2,
            Token::Log => 3,
            Token::Call => 4,
            Token::Ident(_) => 5,
            Token::Number(_) => 6,
            Token::Str(_) => 7,
            Token::LParen => 8,
            Token::RParen => 9,
            Token::LBrace => 10,
            Token::RBrace => 11,
            Token::Comma => 12,
            Token::Eof => 13,
        }
    }

    /// A copy of the token, payload included.
    pub fn duplicate(&self) -> (r: Token)
        ensures
            r == *self,
    {
        match self {
            Token::Import => Token::Import,
            Token::Fn => Token::Fn,
            Token::Main => Token::Main,
            Token::Log => Token::Log,
            Token::Call => Token::Call,
            Token::Ident(s) => Token::Ident(s.clone()),
            Token::Number(s) => Token::Number(s.clone()),
            Token::Str(s) => Token::Str(s.clone()),
            Token::LParen => Token::LParen,
            Token::RParen => Token::RParen,
            Token::LBrace => Token::LBrace,
            Token::RBrace => Token::RBrace,
            Token::Comma => Token::Comma,
            Token::Eof => Token::Eof,
        }
    }
}

/// A place in a source file: byte offset, 1-based line and column, file name.
#[derive(Debug, Clone)]
pub struct Pos {
    pub byte: usize,
    pub line: usize,
    pub col: usize,
    pub file: String,
}

impl Pos {
    /// A copy of the position.
    pub fn duplicate(&self) -> (r: Pos)
        ensures
            r == *self,
    {
        Pos { byte: self.byte, line: self.line, col: self.col, file: self.file.clone() }
    }
}

/// A failure of the lexer: what went wrong and where.
#[derive(Debug, Clone)]
pub struct LexError {
    pub message: String,
    pub pos: Pos,
}

/// Cursor over a source text that hands out one token at a time.
pub struct Lexer<'a> {
    input: &'a str,
    i: usize,
    line: usize,
    col: usize,
    file: String,
}

/// The message of an unterminated string literal.
pub const INCOMPLETE_STRING: &'static str = "incomplete string (\" missing)";

/// The start of the message of an unexpected byte; two hex digits follow.
pub const UNEXPECTED_CHAR: &'static str = "caractère inattendu: 0x";

/// The digits of hexadecimal notation.
pub const HEX_DIGITS: &'static str = "0123456789ABCDEF";

/// Space, tab, carriage return or newline.
pub open spec fn is_ws(b: u8) -> bool {
    b == 32 || b == 9 || b == 13 || b == 10
}

/// A byte that may start an identifier: an ASCII letter or `_`.
pub open spec fn is_letter(b: u8) -> bool {
    (97 <= b <= 122) || (65 <= b <= 90) || b == 95
}

/// An ASCII decimal digit.
pub open spec fn is_digit(b: u8) -> bool {
    48 <= b <= 57
}

/// A byte that may continue an identifier.
pub open spec fn is_ident_char(b: u8) -> bool {
    is_letter(b) || is_digit(b)
}

/// First index at or after `i` that holds no whitespace.
pub open spec fn ws_end(bs: Seq<u8>, i: int) -> int
    decreases bs.len() - i,
{
    if 0 <= i < bs.len() && is_ws(bs[i]) {
        ws_end(bs, i + 1)
    } else {
        i
    }
}

/// End of the run of identifier characters that starts at `i`.
pub open spec fn ident_end(bs: Seq<u8>, i: int) -> int
    decreases bs.len() - i,
{
    if 0 <= i < bs.len() && is_ident_char(bs[i]) {
        ident_end(bs, i + 1)
    } else {
        i
    }
}

/// End of the run of digits that starts at `i`.
pub open spec fn digit_end(bs: Seq<u8>, i: int) -> int
    decreases bs.len() - i,
{
    if 0 <= i < bs.len() && is_digit(bs[i]) {
        digit_end(bs, i + 1)
    } else {
        i
    }
}

/// Index of the first `"` at or after `i`, or the length when there is none.
pub open spec fn quote_end(bs: Seq<u8>, i: int) -> int
    decreases bs.len() - i,
{
    if 0 <= i < bs.len() && bs[i] != 34 {
        quote_end(bs, i + 1)
    } else {
        i
    }
}

/// Line and column of byte offset `k`, counting from line 1, column 1.
pub open spec fn line_col(bs: Seq<u8>, k: int) -> (int, int)
    decreases k,
{
    if k <= 0 {
        (1, 1)
    } else {
        let (l, c) = line_col(bs, k - 1);
        if bs[k - 1] == 10 {
            (l + 1, 1)
        } else {
            (l, c + 1)
        }
    }
}

/// The token that a one-byte symbol stands for.
pub open spec fn symbol_token(b: u8) -> Option<TokenView> {
    if b == 40 {
        Some(TokenView::LParen)
    } else if b == 41 {
        Some(TokenView::RParen)
    } else if b == 123 {
        Some(TokenView::LBrace)
    } else if b == 125 {
        Some(TokenView::RBrace)
    } else if b == 44 {
        Some(TokenView::Comma)
    } else {
        None
    }
}

/// A word read as a keyword when it is one, else as an identifier.
pub open spec fn word_token(w: Seq<char>) -> TokenView {
    if w == grammar::KW_IMPORT@ {
        TokenView::Import
    } else if w == grammar::KW_CALL@ {
        TokenView::Call
    } else if w == grammar::KW_FN@ {
        TokenView::Fn
    } else if w == grammar::KW_MAIN@ {
        TokenView::Main
    } else if w == grammar::KW_LOG@ {
        TokenView::Log
    } else {
        TokenView::Ident(w)
    }
}

/// What the lexer finds at byte offset `j`, where whitespace has been skipped.
pub enum Scan {
    /// A token and the offset just past it.
    Found(TokenView, int),
    /// A `"` with no closing one before the end.
    Unterminated,
    /// A byte that starts no token.
    Stray(u8),
}

/// The token found at offset `j`, with whitespace already skipped.
pub open spec fn scan_at(bs: Seq<u8>, j: int) -> Scan {
    if j >= bs.len() {
        Scan::Found(TokenView::Eof, j)
    } else if symbol_token(bs[j]) is Some {
        Scan::Found(symbol_token(bs[j])->0, j + 1)
    } else if bs[j] == 34 {
        let k = quote_end(bs, j + 1);
        if k >= bs.len() {
            Scan::Unterminated
        } else {
            Scan::Found(TokenView::Str(decode_utf8(bs.subrange(j + 1, k))), k + 1)
        }
    } else if is_letter(bs[j]) {
        let k = ident_end(bs, j);
        Scan::Found(word_token(decode_utf8(bs.subrange(j, k))), k)
    } else if is_digit(bs[j]) {
        let k = digit_end(bs, j);
        Scan::Found(TokenView::Number(decode_utf8(bs.subrange(j, k))), k)
    } else {
        Scan::Stray(bs[j])
    }
}

/// `p` designates byte offset `k` of `bs` in file `file`.
pub open spec fn pos_is(p: Pos, file: Seq<char>, bs: Seq<u8>, k: int) -> bool {
    &&& p.byte == k
    &&& p.line == line_col(bs, k).0
    &&& p.col == line_col(bs, k).1
    &&& p.file@ == file
}

/// Two hex digits for a byte, high digit first.
pub open spec fn hex_byte(b: u8) -> Seq<char> {
    let hi = b as int / 16;
    let lo = b as int % 16;
    HEX_DIGITS@.subrange(hi, hi + 1) + HEX_DIGITS@.subrange(lo, lo + 1)
}

/// The message for a byte that starts no token.
pub open spec fn stray_message(b: u8) -> Seq<char> {
    UNEXPECTED_CHAR@ + hex_byte(b)
}

/// What `next_token` returns when called at offset `i` of `bs` in file `file`.
pub open spec fn next_token_result(
    bs: Seq<u8>,
    file: Seq<char>,
    i: int,
    r: Result<(Token, Pos), LexError>,
) -> bool {
    let j = ws_end(bs, i);
    match scan_at(bs, j) {
        Scan::Found(t, _) => match r {
            Ok((tok, p)) => tok@ == t && pos_is(p, file, bs, j),
            Err(_) => false,
        },
        Scan::Unterminated => match r {
            Ok(_) => false,
            Err(e) => e.message@ == INCOMPLETE_STRING@ && pos_is(e.pos, file, bs, bs.len() as int),
        },
        Scan::Stray(b) => match r {
            Ok(_) => false,
            Err(e) => e.message@ == stray_message(b) && pos_is(e.pos, file, bs, j),
        },
    }
}

/// Where the cursor stands after `next_token` was called at offset `i`: past
/// the token found, at the end after an unterminated string, or on a stray
/// byte.
pub open spec fn next_cursor(bs: Seq<u8>, i: int) -> int {
    match scan_at(bs, ws_end(bs, i)) {
        Scan::Found(_, k) => k,
        Scan::Unterminated => bs.len() as int,
        Scan::Stray(_) => ws_end(bs, i),
    }
}

/// The message for a byte that starts no token.
fn stray_byte_message(b: u8) -> (r: String)
    ensures
        r@ == stray_message(b),
{
    proof {
        reveal_strlit("0123456789ABCDEF");
    }
    let hi = (b / 16) as usize;
    let lo = (b % 16) as usize;
    let mut m = String::from_str(UNEXPECTED_CHAR);
    m.append(HEX_DIGITS.substring_char(hi, hi + 1));
    m.append(HEX_DIGITS.substring_char(lo, lo + 1));
    m
}

/// Skipping whitespace never moves back nor past the end.
pub proof fn lemma_ws_end_bounds(bs: Seq<u8>, i: int)
    requires
        0 <= i <= bs.len(),
    ensures
        i <= ws_end(bs, i) <= bs.len(),
    decreases bs.len() - i,
{
    if i < bs.len() && is_ws(bs[i]) {
        lemma_ws_end_bounds(bs, i + 1);
    }
}

proof fn lemma_run_ends(bs: Seq<u8>, i: int)
    requires
        0 <= i <= bs.len(),
    ensures
        i <= ident_end(bs, i) <= bs.len(),
        i <= digit_end(bs, i) <= bs.len(),
        i <= quote_end(bs, i) <= bs.len(),
    decreases bs.len() - i,
{
    if i < bs.len() {
        lemma_run_ends(bs, i + 1);
    }
}

/// A token found at `j` ends within the input, after `j` unless it is `Eof`.
pub proof fn lemma_scan_bounds(bs: Seq<u8>, j: int)
    requires
        0 <= j <= bs.len(),
    ensures
        scan_at(bs, j) matches Scan::Found(t, k) ==> j <= k <= bs.len() && (t is Eof <==> k == j)
            && (t is Eof ==> j == bs.len()),
{
    if j < bs.len() {
        lemma_run_ends(bs, j + 1);
    }
}

proof fn lemma_line_col_bound(bs: Seq<u8>, k: int)
    requires
        0 <= k,
    ensures
        1 <= line_col(bs, k).0 <= k + 1,
        1 <= line_col(bs, k).1 <= k + 1,
    decreases k,
{
    if k > 0 {
        lemma_line_col_bound(bs, k - 1);
    }
}

impl<'a> Lexer<'a> {
    /// The input as UTF-8 bytes.
    pub closed spec fn bytes(&self) -> Seq<u8> {
        self.input.spec_bytes()
    }

    /// The offset of the next byte to read.
    pub closed spec fn cursor(&self) -> int {
        self.i as int
    }

    /// The file name that positions carry.
    pub closed spec fn file_name(&self) -> Seq<char> {
        self.file@
    }

    /// The cursor lies in the input and line and column describe it.
    pub closed spec fn wf(&self) -> bool {
        &&& self.i <= self.bytes().len() <= isize::MAX
        &&& self.line == line_col(self.bytes(), self.i as int).0
        &&& self.col == line_col(self.bytes(), self.i as int).1
    }

    /// The cursor of a well-formed lexer lies within its input.
    pub proof fn lemma_cursor_bounds(&self)
        requires
            self.wf(),
        ensures
            0 <= self.cursor() <= self.bytes().len(),
    {
    }

    /// A lexer over `input`, reported as coming from `<stdin>`.
    pub fn new(input: &'a str) -> (r: Lexer<'a>)
        requires
            input.spec_bytes().len() <= isize::MAX,
        ensures
            r.wf(),
            r.bytes() == input.spec_bytes(),
            r.cursor() == 0,
            r.file_name() == "<stdin>"@,
    {
        Self::with_file("<stdin>", input)
    }

    /// A lexer over `input`, whose positions name `file`.
    pub fn with_file(file: &str, input: &'a str) -> (r: Lexer<'a>)
        requires
            input.spec_bytes().len() <= isize::MAX,
        ensures
            r.wf(),
            r.bytes() == input.spec_bytes(),
            r.cursor() == 0,
            r.file_name() == file@,
    {
        Lexer { input, i: 0, line: 1, col: 1, file: file.to_owned() }
    }

    /// The whole input has been read.
    fn eof(&self) -> (r: bool)
        requires
            self.wf(),
        ensures
            r == (self.i >= self.bytes().len()),
    {
        self.i >= self.input.len()
    }

    /// The next byte, left unread.
    fn peek(&self) -> (r: Option<u8>)
        requires
            self.wf(),
        ensures
            self.i < self.bytes().len() ==> r == Some(self.bytes()[self.i as int]),
            self.i >= self.bytes().len() ==> r is None,
    {
        if self.i < self.input.len() {
            Some(self.input.as_bytes()[self.i])
        } else {
            None
        }
    }

    /// Reads one byte, moving line and column past it.
    fn bump(&mut self) -> (r: Option<u8>)
        requires
            old(self).wf(),
        ensures
            final(self).wf(),
            final(self).input == old(self).input,
            final(self).file == old(self).file,
            old(self).i < old(self).bytes().len() ==> r == Some(old(self).bytes()[old(self).i as int])
                && final(self).i == old(self).i + 1,
            old(self).i >= old(self).bytes().len() ==> r is None && final(self).i == old(self).i,
    {
        let b = match self.peek() {
            Some(b) => b,
            None => return None,
        };
        proof {
            lemma_line_col_bound(self.bytes(), self.i as int);
        }
        self.i = self.i + 1;
        if b == 10 {
            self.line = self.line + 1;
            self.col = 1;
        } else {
            self.col = self.col + 1;
        }
        Some(b)
    }

    /// Reads past whitespace.
    fn skip_ws(&mut self)
        requires
            old(self).wf(),
        ensures
            final(self).wf(),
            final(self).input == old(self).input,
            final(self).file == old(self).file,
            final(self).i == ws_end(old(self).bytes(), old(self).i as int),
    {
        let ghost start = self.i as int;
        loop
            invariant
                self.wf(),
                self.input == old(self).input,
                self.file == old(self).file,
                start == old(self).i,
                ws_end(self.bytes(), self.i as int) == ws_end(self.bytes(), start),
            ensures
                ws_end(self.bytes(), self.i as int) == self.i,
            decreases self.bytes().len() - self.i,
        {
            match self.peek() {
                Some(b) => {
                    if b == 32 || b == 9 || b == 13 || b == 10 {
                        self.bump();
                    } else {
                        assert(ws_end(self.bytes(), self.i as int) == self.i);
                        break;
                    }
                },
                None => {
                    assert(ws_end(self.bytes(), self.i as int) == self.i);
                    break;
                },
            }
        }
    }

    /// Consumes a one-byte symbol, if one is next.
    fn try_symbol(&mut self) -> (r: Option<Token>)
        requires
            old(self).wf(),
        ensures
            final(self).wf(),
            final(self).input == old(self).input,
            final(self).file == old(self).file,
            old(self).i >= old(self).bytes().len() ==> r is None && final(self).i == old(self).i,
            old(self).i < old(self).bytes().len() ==> match symbol_token(
                old(self).bytes()[old(self).i as int],
            ) {
                Some(t) => r is Some && r->0@ == t && final(self).i == old(self).i + 1,
                None => r is None && final(self).i == old(self).i,
            },
    {
        if self.i >= self.input.len() {
            return None;
        }
        let b = self.input.as_bytes()[self.i];
        let t = if b == 40 {
            Token::LParen
        } else if b == 41 {
            Token::RParen
        } else if b == 123 {
            Token::LBrace
        } else if b == 125 {
            Token::RBrace
        } else if b == 44 {
            Token::Comma
        } else {
            return None;
        };
        self.bump();
        Some(t)
    }

    /// The position of the cursor.
    fn get_pos(&self) -> (r: Pos)
        requires
            self.wf(),
        ensures
            pos_is(r, self.file@, self.bytes(), self.i as int),
    {
        Pos { file: self.file.clone(), byte: self.i, line: self.line, col: self.col }
    }

    /// The text of bytes `a..b` of the input.
    fn text_between(&self, a: usize, b: usize) -> (r: String)
        requires
            self.wf(),
            a <= b <= self.bytes().len(),
            ascii_edge(self.bytes(), a as int),
            ascii_edge(self.bytes(), b as int),
        ensures
            r@ == decode_utf8(self.bytes().subrange(a as int, b as int)),
    {
        let ghost bs = self.bytes();
        proof {
            encode_utf8_valid_utf8(self.input@);
            lemma_ascii_edge_is_boundary(bs, b as int);
        }
        let (left, _) = self.input.split_at(b);
        let ghost lb = left.spec_bytes();
        proof {
            valid_utf8_split(bs, b as int);
            assert(lb =~= bs.subrange(0, b as int));
            assert(ascii_edge(lb, a as int));
            lemma_ascii_edge_is_boundary(lb, a as int);
        }
        let (_, mid) = left.split_at(a);
        proof {
            assert(mid.spec_bytes() =~= bs.subrange(a as int, b as int));
            encode_utf8_decode_utf8(mid@);
        }
        mid.to_owned()
    }
    /// Reads a string literal; the cursor is on its opening `"`.
    fn read_string(&mut self) -> (r: Result<Token, LexError>)
        requires
            old(self).wf(),
            old(self).i < old(self).bytes().len(),
            old(self).bytes()[old(self).i as int] == 34,
        ensures
            final(self).wf(),
            final(self).input == old(self).input,
            final(self).file == old(self).file,
            ({
                let bs = old(self).bytes();
                let k = quote_end(bs, old(self).i + 1);
                if k >= bs.len() {
                    &&& final(self).i == bs.len()
                    &&& r matches Err(e)
                    &&& e.message@ == INCOMPLETE_STRING@
                    &&& pos_is(e.pos, old(self).file@, bs, bs.len() as int)
                } else {
                    &&& final(self).i == k + 1
                    &&& r matches Ok(t)
                    &&& t@ == TokenView::Str(decode_utf8(bs.subrange(old(self).i + 1, k)))
                }
            }),
    {
        let ghost bs = self.bytes();
        self.bump();
        let s = self.i;
        loop
            invariant
                self.wf(),
                self.input == old(self).input,
                self.file == old(self).file,
                bs == self.bytes(),
                bs == old(self).bytes(),
                s == old(self).i + 1,
                s <= self.i,
                bs[s - 1] == 34,
                quote_end(bs, self.i as int) == quote_end(bs, s as int),
            decreases bs.len() - self.i,
        {
            match self.peek() {
                Some(b) => {
                    if b == 34 {
                        let out = self.text_between(s, self.i);
                        self.bump();
                        return Ok(Token::Str(out));
                    }
                    self.bump();
                },
                None => {
                    return Err(
                        LexError { message: String::from_str(INCOMPLETE_STRING), pos: self.get_pos() },
                    );
                },
            }
        }
    }

    fn is_ident_start(b: u8) -> (r: bool)
        ensures
            r == is_letter(b),
    {
        (97 <= b && b <= 122) || (65 <= b && b <= 90) || b == 95
    }

    fn is_ident_continue(b: u8) -> (r: bool)
        ensures
            r == is_ident_char(b),
    {
        Self::is_ident_start(b) || (48 <= b && b <= 57)
    }

    /// Reads a run of identifier characters; returns its text, start and end.
    fn read_ident(&mut self) -> (r: (String, usize, usize))
        requires
            old(self).wf(),
            old(self).i < old(self).bytes().len(),
            is_letter(old(self).bytes()[old(self).i as int]),
        ensures
            final(self).wf(),
            final(self).input == old(self).input,
            final(self).file == old(self).file,
            final(self).i == ident_end(old(self).bytes(), old(self).i as int),
            r.1 == old(self).i,
            r.2 == final(self).i,
            r.0@ == decode_utf8(old(self).bytes().subrange(r.1 as int, r.2 as int)),
    {
        let ghost bs = self.bytes();
        let s = self.i;
        loop
            invariant
                self.wf(),
                self.input == old(self).input,
                self.file == old(self).file,
                bs == self.bytes(),
                bs == old(self).bytes(),
                s == old(self).i,
                s <= self.i,
                s == self.i || is_ident_char(bs[self.i - 1]),
                is_letter(bs[s as int]),
                ident_end(bs, self.i as int) == ident_end(bs, s as int),
            ensures
                ident_end(bs, self.i as int) == self.i,
            decreases bs.len() - self.i,
        {
            match self.peek() {
                Some(b) => {
                    if Self::is_ident_continue(b) {
                        self.bump();
                    } else {
                        break;
                    }
                },
                None => break,
            }
        }
        let text = self.text_between(s, self.i);
        (text, s, self.i)
    }

    /// Reads a run of digits; returns its text, start and end.
    fn read_number(&mut self) -> (r: (String, usize, usize))
        requires
            old(self).wf(),
            old(self).i < old(self).bytes().len(),
            is_digit(old(self).bytes()[old(self).i as int]),
        ensures
            final(self).wf(),
            final(self).input == old(self).input,
            final(self).file == old(self).file,
            final(self).i == digit_end(old(self).bytes(), old(self).i as int),
            r.1 == old(self).i,
            r.2 == final(self).i,
            r.0@ == decode_utf8(old(self).bytes().subrange(r.1 as int, r.2 as int)),
    {
        let ghost bs = self.bytes();
        let s = self.i;
        loop
            invariant
                self.wf(),
                self.input == old(self).input,
                self.file == old(self).file,
                bs == self.bytes(),
                bs == old(self).bytes(),
                s == old(self).i,
                s <= self.i,
                s == self.i || is_digit(bs[self.i - 1]),
                is_digit(bs[s as int]),
                digit_end(bs, self.i as int) == digit_end(bs, s as int),
            ensures
                digit_end(bs, self.i as int) == self.i,
            decreases bs.len() - self.i,
        {
            match self.peek() {
                Some(b) => {
                    if 48 <= b && b <= 57 {
                        self.bump();
                    } else {
                        break;
                    }
                },
                None => break,
            }
        }
        let text = self.text_between(s, self.i);
        (text, s, self.i)
    }

    /// Skips whitespace and reads the next token with its position. At the end
    /// of the input this is `Eof`, again on every later call.
    pub fn next_token(&mut self) -> (r: Result<(Token, Pos), LexError>)
        requires
            old(self).wf(),
        ensures
            final(self).wf(),
            final(self).bytes() == old(self).bytes(),
            final(self).file_name() == old(self).file_name(),
            next_token_result(old(self).bytes(), old(self).file_name(), old(self).cursor(), r),
            final(self).cursor() == next_cursor(old(self).bytes(), old(self).cursor()),
    {
        self.skip_ws();
        let pos = self.get_pos();
        if self.eof() {
            return Ok((Token::Eof, pos));
        }
        if let Some(t) = self.try_symbol() {
            return Ok((t, pos));
        }
        let b = self.input.as_bytes()[self.i];
        if b == 34 {
            let t = self.read_string()?;
            return Ok((t, pos));
        }
        if Self::is_ident_start(b) {
            let (id, _, _) = self.read_ident();
            let t = if id == String::from_str(grammar::KW_IMPORT) {
                Token::Import
            } else if id == String::from_str(grammar::KW_CALL) {
                Token::Call
            } else if id == String::from_str(grammar::KW_FN) {
                Token::Fn
            } else if id == String::from_str(grammar::KW_MAIN) {
                Token::Main
            } else if id == String::from_str(grammar::KW_LOG) {
                Token::Log
            } else {
                Token::Ident(id)
            };
            return Ok((t, pos));
        }
        if 48 <= b && b <= 57 {
            let (n, _, _) = self.read_number();
            return Ok((Token::Number(n), pos));
        }
        Err(LexError { message: stray_byte_message(b), pos })
    }
}

} // verus!
