use gaufre::grammar;
use gaufre::lexer::{Lexer, Token};

fn tokens(src: &str) -> Vec<Token> {
    let mut lx = Lexer::new(src);
    let mut out = Vec::new();
    loop {
        let (t, _) = lx.next_token().expect("lexes");
        let end = t == Token::Eof;
        out.push(t);
        if end {
            return out;
        }
    }
}

#[test]
fn whitespace_only_is_eof_repeatedly() {
    let mut lx = Lexer::new("  \n\t \r\n ");
    let (t, p) = lx.next_token().unwrap();
    assert_eq!(t, Token::Eof);
    assert_eq!(p.byte, 8);
    assert_eq!(p.line, 3);
    assert_eq!(p.col, 2);
    assert_eq!(p.file, "<stdin>");
    for _ in 0..3 {
        let (t, p) = lx.next_token().unwrap();
        assert_eq!(t, Token::Eof);
        assert_eq!(p.byte, 8);
    }
}

#[test]
fn empty_input_is_eof() {
    let mut lx = Lexer::with_file("empty.gfr", "");
    let (t, p) = lx.next_token().unwrap();
    assert_eq!(t, Token::Eof);
    assert_eq!((p.byte, p.line, p.col), (0, 1, 1));
    assert_eq!(p.file, "empty.gfr");
}

#[test]
fn string_literal_is_one_token() {
    assert_eq!(
        tokens("\"hello, world (x)\""),
        vec![Token::Str("hello, world (x)".to_string()), Token::Eof]
    );
    assert_eq!(tokens("\"\""), vec![Token::Str(String::new()), Token::Eof]);
}

#[test]
fn string_literal_keeps_non_ascii_text() {
    assert_eq!(tokens("\"héllo ✓\""), vec![Token::Str("héllo ✓".to_string()), Token::Eof]);
}

#[test]
fn identifier_is_one_token() {
    assert_eq!(tokens("foo_Bar9"), vec![Token::Ident("foo_Bar9".to_string()), Token::Eof]);
    assert_eq!(tokens("_x"), vec![Token::Ident("_x".to_string()), Token::Eof]);
    assert_eq!(tokens("imports"), vec![Token::Ident("imports".to_string()), Token::Eof]);
    assert_eq!(tokens("Main"), vec![Token::Ident("Main".to_string()), Token::Eof]);
}

#[test]
fn reserved_words_are_keywords() {
    assert_eq!(tokens("import"), vec![Token::Import, Token::Eof]);
    assert_eq!(tokens("fn"), vec![Token::Fn, Token::Eof]);
    assert_eq!(tokens("main"), vec![Token::Main, Token::Eof]);
    assert_eq!(tokens("log"), vec![Token::Log, Token::Eof]);
    assert_eq!(tokens("call"), vec![Token::Call, Token::Eof]);
    assert_eq!(grammar::KW_IMPORT, "import");
}

#[test]
fn numbers_keep_their_digits() {
    assert_eq!(tokens("0042"), vec![Token::Number("0042".to_string()), Token::Eof]);
    assert_eq!(
        tokens("12ab"),
        vec![Token::Number("12".to_string()), Token::Ident("ab".to_string()), Token::Eof]
    );
}

#[test]
fn symbols_are_single_tokens() {
    assert_eq!(
        tokens("( ) { } ,"),
        vec![Token::LParen, Token::RParen, Token::LBrace, Token::RBrace, Token::Comma, Token::Eof]
    );
}

#[test]
fn unterminated_string_fails_at_end_of_input() {
    let mut lx = Lexer::with_file("s.gfr", "log(\"abc\n");
    lx.next_token().unwrap();
    lx.next_token().unwrap();
    let e = lx.next_token().unwrap_err();
    assert_eq!(e.message, "incomplete string (\" missing)");
    assert_eq!((e.pos.byte, e.pos.line, e.pos.col), (9, 2, 1));
    assert_eq!(e.pos.file, "s.gfr");
}

#[test]
fn stray_byte_is_reported_in_hex() {
    let mut lx = Lexer::new("log @");
    lx.next_token().unwrap();
    let e = lx.next_token().unwrap_err();
    assert_eq!(e.message, "caractère inattendu: 0x40");
    assert_eq!((e.pos.byte, e.pos.line, e.pos.col), (4, 1, 5));
    let mut lx = Lexer::new("é");
    let e = lx.next_token().unwrap_err();
    assert_eq!(e.message, "caractère inattendu: 0xC3");
}

#[test]
fn positions_count_lines_and_bytes() {
    let mut lx = Lexer::new("log\n  call \"é\" x");
    let (_, p) = lx.next_token().unwrap();
    assert_eq!((p.byte, p.line, p.col), (0, 1, 1));
    let (_, p) = lx.next_token().unwrap();
    assert_eq!((p.byte, p.line, p.col), (6, 2, 3));
    let (_, p) = lx.next_token().unwrap();
    assert_eq!((p.byte, p.line, p.col), (11, 2, 8));
    let (t, p) = lx.next_token().unwrap();
    assert_eq!(t, Token::Ident("x".to_string()));
    assert_eq!((p.byte, p.line, p.col), (16, 2, 13));
}

#[test]
fn relexing_a_token_range_gives_its_payload() {
    let src = "import \"a b\" foo 123 \"\"";
    let mut lx = Lexer::new(src);
    loop {
        let (t, p) = lx.next_token().unwrap();
        let end = match &t {
            Token::Str(s) => p.byte + s.len() + 2,
            Token::Ident(s) | Token::Number(s) => p.byte + s.len(),
            Token::Eof => break,
            _ => continue,
        };
        let mut again = Lexer::new(&src[p.byte..end]);
        assert_eq!(again.next_token().unwrap().0, t);
        assert_eq!(again.next_token().unwrap().0, Token::Eof);
    }
}

#[test]
fn lexer_state_after_errors() {
    let mut lx = Lexer::new("  @x");
    let e = lx.next_token().unwrap_err();
    assert_eq!(e.pos.byte, 2);
    let e = lx.next_token().unwrap_err();
    assert_eq!(e.message, "caractère inattendu: 0x40");
    assert_eq!(e.pos.byte, 2);
    let mut lx = Lexer::new("\"open");
    assert!(lx.next_token().is_err());
    let (t, p) = lx.next_token().unwrap();
    assert_eq!(t, Token::Eof);
    assert_eq!(p.byte, 5);
}
