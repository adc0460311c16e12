use gaufre::imports::{parse_included, parse_root, unique_imports};
use gaufre::lexer::{Lexer, Token};
use gaufre::parser::{
    Expr, ParseError, Parser, Stmt, EXPECT_CALL_NAME, EXPECT_FN_NAME, EXPECT_LOG_ARG,
    EXPECT_NOT_MAIN, EXPECT_NO_IMPORT, EXPECT_PATH, EXPECT_STMT,
};

fn unexpected(e: ParseError) -> (Token, &'static str, usize) {
    match e {
        ParseError::Unexpected { found, expected, pos } => (found, expected, pos.byte),
        other => panic!("not an unexpected-token error: {:?}", other),
    }
}

fn is_log(s: &Stmt, text: &str) -> bool {
    match s {
        Stmt::Log(es) => es.len() == 1 && matches!(&es[0], Expr::Str(x) if x == text),
        _ => false,
    }
}

fn is_call(s: &Stmt, fname: &str) -> bool {
    matches!(s, Stmt::Call { name } if name == fname)
}

#[test]
fn main_with_one_log() {
    let (imports, prog) = parse_root("m.gfr", "fn main() { log(\"hi\") }").unwrap();
    assert!(imports.is_empty());
    assert_eq!(prog.stmts.len(), 1);
    assert!(is_log(&prog.stmts[0], "hi"));
}

#[test]
fn main_with_one_call() {
    let (imports, prog) = parse_root("m.gfr", "fn main() { call foo() }").unwrap();
    assert!(imports.is_empty());
    assert_eq!(prog.stmts.len(), 1);
    assert!(is_call(&prog.stmts[0], "foo"));
}

#[test]
fn main_with_imports_and_statements() {
    let src = "import \"a.gfr\"\nimport \"lib/b.gfr\"\nfn main() {\n  log(\"x\")\n  call go()\n  log(\"y\")\n}\n";
    let (imports, prog) = parse_root("m.gfr", src).unwrap();
    assert_eq!(imports, vec!["a.gfr".to_string(), "lib/b.gfr".to_string()]);
    assert_eq!(prog.stmts.len(), 3);
    assert!(is_log(&prog.stmts[0], "x"));
    assert!(is_call(&prog.stmts[1], "go"));
    assert!(is_log(&prog.stmts[2], "y"));
}

#[test]
fn duplicate_imports_collapse() {
    let (imports, _) = parse_root("m.gfr", "import \"a.gfr\" import \"a.gfr\" fn main(){}").unwrap();
    assert_eq!(imports.len(), 2);
    assert_eq!(unique_imports(&imports), vec!["a.gfr".to_string()]);
    let many = vec!["b".to_string(), "a".to_string(), "b".to_string(), "c".to_string(), "a".to_string()];
    assert_eq!(unique_imports(&many), vec!["b".to_string(), "a".to_string(), "c".to_string()]);
    assert!(unique_imports(&Vec::new()).is_empty());
}

#[test]
fn trailing_tokens_after_main_fail() {
    let e = parse_root("m.gfr", "fn main() { log(\"hi\") } )").unwrap_err();
    assert_eq!(unexpected(e), (Token::RParen, "end of file", 24));
    let e = parse_root("m.gfr", "fn main() {} fn main() {}").unwrap_err();
    assert_eq!(unexpected(e), (Token::Fn, "end of file", 13));
}

#[test]
fn import_needs_a_path_string() {
    let e = parse_root("m.gfr", "import foo fn main() {}").unwrap_err();
    assert_eq!(unexpected(e), (Token::Ident("foo".to_string()), EXPECT_PATH, 7));
}

#[test]
fn main_grammar_errors() {
    let e = parse_root("m.gfr", "main() {}").unwrap_err();
    assert_eq!(unexpected(e), (Token::Main, "fn", 0));
    let e = parse_root("m.gfr", "fn main() { foo() }").unwrap_err();
    assert_eq!(unexpected(e), (Token::Ident("foo".to_string()), EXPECT_STMT, 12));
    let e = parse_root("m.gfr", "fn main() { log(x) }").unwrap_err();
    assert_eq!(unexpected(e), (Token::Ident("x".to_string()), EXPECT_LOG_ARG, 16));
    let e = parse_root("m.gfr", "fn main() { call 12() }").unwrap_err();
    assert_eq!(unexpected(e), (Token::Number("12".to_string()), EXPECT_CALL_NAME, 17));
    let e = parse_root("m.gfr", "fn main() { log(\"a\" }").unwrap_err();
    assert_eq!(unexpected(e), (Token::RBrace, ")", 20));
    let e = parse_root("m.gfr", "fn main() {").unwrap_err();
    assert_eq!(unexpected(e), (Token::Eof, EXPECT_STMT, 11));
}

#[test]
fn lex_errors_pass_through_the_parser() {
    match parse_root("m.gfr", "fn main() { log(\"hi) }").unwrap_err() {
        ParseError::Lex(le) => {
            assert_eq!(le.message, "incomplete string (\" missing)");
            assert_eq!(le.pos.byte, 22);
            assert_eq!(le.pos.file, "m.gfr");
        }
        other => panic!("expected a lex error: {:?}", other),
    }
    match Parser::new(Lexer::new("#")) {
        Err(ParseError::Lex(le)) => assert_eq!(le.message, "caractère inattendu: 0x23"),
        _ => panic!("expected a lex error"),
    }
}

#[test]
fn included_file_statements() {
    let stmts = parse_included("a.gfr", "log(\"one\") call two()").unwrap();
    assert_eq!(stmts.len(), 2);
    assert!(is_log(&stmts[0], "one"));
    assert!(is_call(&stmts[1], "two"));
    assert!(parse_included("a.gfr", "  \n").unwrap().is_empty());
}

#[test]
fn included_file_refuses_import() {
    let e = parse_included("a.gfr", "import \"x.gfr\"").unwrap_err();
    assert_eq!(unexpected(e), (Token::Import, EXPECT_NO_IMPORT, 0));
    let e = parse_included("a.gfr", "log(\"a\")\ncall b()\nimport \"x.gfr\" log(\"c\")").unwrap_err();
    assert_eq!(unexpected(e), (Token::Import, EXPECT_NO_IMPORT, 18));
}

#[test]
fn function_declarations() {
    let mut p = Parser::new(Lexer::new("helper() { log(\"in\") call other() }")).unwrap();
    let f = p.parse_function().unwrap();
    assert_eq!(f.name, "helper");
    assert_eq!(f.body.len(), 2);
    assert!(is_log(&f.body[0], "in"));
    let mut p = Parser::new(Lexer::new("main() {}")).unwrap();
    assert_eq!(unexpected(p.parse_function().unwrap_err()), (Token::Main, EXPECT_NOT_MAIN, 0));
    let mut p = Parser::new(Lexer::new("12() {}")).unwrap();
    assert_eq!(
        unexpected(p.parse_function().unwrap_err()),
        (Token::Number("12".to_string()), EXPECT_FN_NAME, 0)
    );
}

#[test]
fn parse_imports_alone() {
    let mut p = Parser::new(Lexer::new("import \"a\" import \"b\" fn")).unwrap();
    assert_eq!(p.parse_imports().unwrap(), vec!["a".to_string(), "b".to_string()]);
    let mut p = Parser::new(Lexer::new("fn")).unwrap();
    assert!(p.parse_imports().unwrap().is_empty());
}

#[test]
fn lex_error_converts_into_parse_error() {
    let le = Lexer::new("\"x").next_token().unwrap_err();
    let pe: ParseError = le.clone().into();
    match pe {
        ParseError::Lex(inner) => {
            assert_eq!(inner.message, le.message);
            assert_eq!(inner.pos.byte, 2);
        }
        other => panic!("expected a lex error: {:?}", other),
    }
}

#[test]
fn syntax_trees_clone() {
    let (_, prog) = parse_root("m.gfr", "fn main() { log(\"a\") call b() }").unwrap();
    let copy = prog.clone();
    assert_eq!(copy.stmts.len(), 2);
    assert!(is_log(&copy.stmts[0], "a"));
    assert!(is_call(&copy.stmts[1], "b"));
    let e = Expr::Add(Box::new(Expr::Int(1)), Box::new(Expr::Var("v".to_string())));
    match e.clone() {
        Expr::Add(a, b) => {
            assert!(matches!(*a, Expr::Int(1)));
            assert!(matches!(*b, Expr::Var(ref v) if v == "v"));
        }
        _ => panic!("expected an addition"),
    }
}

#[test]
fn function_declaration_error_names() {
    let mut p = Parser::new(Lexer::new("main() {}")).unwrap();
    assert_eq!(unexpected(p.parse_function().unwrap_err()), (Token::Main, "function (hors `main`)", 0));
    let mut p = Parser::new(Lexer::new("() {}")).unwrap();
    assert_eq!(unexpected(p.parse_function().unwrap_err()), (Token::LParen, "nom de fonction", 0));
}
