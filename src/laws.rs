use vstd::prelude::*;
use vstd::utf8::*;
use crate::grammar;
use crate::imports::first_occurrences;
use crate::lexer::{
    digit_end, ident_end, is_digit, is_ident_char, is_letter, is_ws, quote_end, scan_at,
    word_token, ws_end, Scan, TokenView,
};
use crate::parser::{
    advance, body_step, expect_step, imports_step, main_step, stmt_step, sub_step, Cursor, Failure,
    EXPECT_NO_IMPORT,
};
use crate::lexer::{lemma_scan_bounds, lemma_ws_end_bounds};

verus! {

broadcast use vstd::seq::group_seq_axioms;

proof fn lemma_all_ws(bs: Seq<u8>, i: int)
    requires
        0 <= i <= bs.len(),
        forall|k: int| 0 <= k < bs.len() ==> is_ws(#[trigger] bs[k]),
    ensures
        ws_end(bs, i) == bs.len(),
    decreases bs.len() - i,
{
    if i < bs.len() {
        lemma_all_ws(bs, i + 1);
    }
}

/// Input made of whitespace alone lexes to `Eof` at its end, and every later
/// call, which starts from that end, lexes to `Eof` at the same place.
pub proof fn law_whitespace_is_eof(bs: Seq<u8>)
    requires
        forall|k: int| 0 <= k < bs.len() ==> is_ws(#[trigger] bs[k]),
    ensures
        ws_end(bs, 0) == bs.len(),
        scan_at(bs, ws_end(bs, 0)) == Scan::Found(TokenView::Eof, bs.len() as int),
        ws_end(bs, bs.len() as int) == bs.len(),
        scan_at(bs, ws_end(bs, bs.len() as int)) == Scan::Found(TokenView::Eof, bs.len() as int),
{
    lemma_all_ws(bs, 0);
    lemma_all_ws(bs, bs.len() as int);
}

proof fn lemma_no_quote_run(bs: Seq<u8>, i: int, e: int)
    requires
        0 <= i <= e < bs.len(),
        bs[e] == 34,
        forall|k: int| i <= k < e ==> #[trigger] bs[k] != 34,
    ensures
        quote_end(bs, i) == e,
    decreases e - i,
{
    if i < e {
        lemma_no_quote_run(bs, i + 1, e);
    }
}

/// A `"`, bytes without `"`, and a closing `"` lex to one string token holding
/// exactly those bytes' text, followed by `Eof`.
pub proof fn law_string_literal(s: Seq<u8>)
    requires
        forall|k: int| 0 <= k < s.len() ==> #[trigger] s[k] != 34,
    ensures
        ({
            let bs = seq![34u8] + s + seq![34u8];
            &&& ws_end(bs, 0) == 0
            &&& scan_at(bs, 0) == Scan::Found(TokenView::Str(decode_utf8(s)), bs.len() as int)
            &&& scan_at(bs, ws_end(bs, bs.len() as int)) == Scan::Found(
                TokenView::Eof,
                bs.len() as int,
            )
        }),
{
    let bs = seq![34u8] + s + seq![34u8];
    assert forall|k: int| 1 <= k < s.len() + 1 implies #[trigger] bs[k] != 34 by {
        assert(bs[k] == s[k - 1]);
    }
    lemma_no_quote_run(bs, 1, s.len() as int + 1);
    assert(bs.subrange(1, s.len() as int + 1) =~= s);
}

proof fn lemma_encode_concat(a: Seq<char>, b: Seq<char>)
    ensures
        encode_utf8(a + b) == encode_utf8(a) + encode_utf8(b),
    decreases a.len(),
{
    if a.len() == 0 {
        assert(a + b =~= b);
        assert(encode_utf8(a) + encode_utf8(b) =~= encode_utf8(b));
    } else {
        assert((a + b).drop_first() =~= a.drop_first() + b);
        lemma_encode_concat(a.drop_first(), b);
        assert((a + b)[0] == a[0]);
        let e = encode_scalar(a[0] as u32);
        assert(e + (encode_utf8(a.drop_first()) + encode_utf8(b)) =~= (e + encode_utf8(
            a.drop_first(),
        )) + encode_utf8(b));
    }
}

proof fn lemma_scalar_has_no_quote(v: u32)
    requires
        v != 34,
    ensures
        forall|k: int| 0 <= k < encode_scalar(v).len() ==> #[trigger] encode_scalar(v)[k] != 34,
{
    assert(v <= 0x7f && v != 34 ==> (v & 0x7F) as u8 != 34u8) by (bit_vector);
    assert((0xC0u8 | (((v >> 6) & 0x1F) as u8)) != 34u8) by (bit_vector);
    assert((0xE0u8 | (((v >> 12) & 0x0F) as u8)) != 34u8) by (bit_vector);
    assert((0xF0u8 | (((v >> 18) & 0x7) as u8)) != 34u8) by (bit_vector);
    assert((0x80u8 | ((v & 0x3F) as u8)) != 34u8) by (bit_vector);
    assert((0x80u8 | (((v >> 6) & 0x3F) as u8)) != 34u8) by (bit_vector);
    assert((0x80u8 | (((v >> 12) & 0x3F) as u8)) != 34u8) by (bit_vector);
}

proof fn lemma_encode_has_no_quote(s: Seq<char>)
    requires
        forall|k: int| 0 <= k < s.len() ==> #[trigger] s[k] != '"',
    ensures
        forall|k: int| 0 <= k < encode_utf8(s).len() ==> #[trigger] encode_utf8(s)[k] != 34,
    decreases s.len(),
{
    if s.len() > 0 {
        let rest = s.drop_first();
        assert forall|k: int| 0 <= k < rest.len() implies #[trigger] rest[k] != '"' by {
            assert(rest[k] == s[k + 1]);
        }
        lemma_encode_has_no_quote(rest);
        assert(s[0] != '"');
        assert(s[0] as u32 != 34) by {
            if s[0] as u32 == 34 {
                char_u32_cast(s[0], 34u32);
                char_u32_cast('"', 34u32);
            }
        }
        lemma_scalar_has_no_quote(s[0] as u32);
        let e = encode_scalar(s[0] as u32);
        let r = encode_utf8(rest);
        assert forall|k: int| 0 <= k < (e + r).len() implies #[trigger] (e + r)[k] != 34 by {
            if k < e.len() {
                assert((e + r)[k] == e[k]);
            } else {
                assert((e + r)[k] == r[k - e.len()]);
            }
        }
    }
}

/// The text `"` + `s` + `"`, where `s` holds no `"`, lexes to one string
/// token holding exactly `s`, followed by `Eof` at the end of the text.
pub proof fn law_string_literal_text(s: Seq<char>)
    requires
        forall|k: int| 0 <= k < s.len() ==> #[trigger] s[k] != '"',
    ensures
        ({
            let bs = encode_utf8(seq!['"'] + s + seq!['"']);
            &&& ws_end(bs, 0) == 0
            &&& scan_at(bs, 0) == Scan::Found(TokenView::Str(s), bs.len() as int)
            &&& scan_at(bs, ws_end(bs, bs.len() as int)) == Scan::Found(
                TokenView::Eof,
                bs.len() as int,
            )
        }),
{
    let q = seq!['"'];
    lemma_encode_concat(q + s, q);
    lemma_encode_concat(q, s);
    assert(is_ascii_chars(q));
    is_ascii_chars_encode_utf8(q);
    assert(encode_utf8(q) =~= seq![34u8]);
    let e = encode_utf8(s);
    lemma_encode_has_no_quote(s);
    law_string_literal(e);
    encode_utf8_decode_utf8(s);
}

/// A `"` followed by bytes without `"` up to the end is an unterminated string.
pub proof fn law_unterminated_string(s: Seq<u8>)
    requires
        forall|k: int| 0 <= k < s.len() ==> #[trigger] s[k] != 34,
    ensures
        ({
            let bs = seq![34u8] + s;
            &&& ws_end(bs, 0) == 0
            &&& scan_at(bs, 0) == Scan::Unterminated
        }),
{
    let bs = seq![34u8] + s;
    assert(quote_end(bs, 1) == bs.len()) by {
        lemma_quote_to_end(bs, 1);
    }
}

proof fn lemma_quote_to_end(bs: Seq<u8>, i: int)
    requires
        1 <= i <= bs.len(),
        forall|k: int| 1 <= k < bs.len() ==> #[trigger] bs[k] != 34,
    ensures
        quote_end(bs, i) == bs.len(),
    decreases bs.len() - i,
{
    if i < bs.len() {
        lemma_quote_to_end(bs, i + 1);
    }
}

proof fn lemma_all_ident(w: Seq<u8>, i: int)
    requires
        0 <= i <= w.len(),
        forall|k: int| 0 <= k < w.len() ==> is_ident_char(#[trigger] w[k]),
    ensures
        ident_end(w, i) == w.len(),
    decreases w.len() - i,
{
    if i < w.len() {
        lemma_all_ident(w, i + 1);
    }
}

proof fn lemma_all_digits(w: Seq<u8>, i: int)
    requires
        0 <= i <= w.len(),
        forall|k: int| 0 <= k < w.len() ==> is_digit(#[trigger] w[k]),
    ensures
        digit_end(w, i) == w.len(),
    decreases w.len() - i,
{
    if i < w.len() {
        lemma_all_digits(w, i + 1);
    }
}

/// A word (a letter or `_`, then letters, digits or `_`) lexes to one token:
/// the keyword it spells, or else an identifier holding exactly its text.
pub proof fn law_word(w: Seq<u8>)
    requires
        w.len() > 0,
        is_letter(w[0]),
        forall|k: int| 0 <= k < w.len() ==> is_ident_char(#[trigger] w[k]),
    ensures
        ws_end(w, 0) == 0,
        scan_at(w, 0) == Scan::Found(word_token(decode_utf8(w)), w.len() as int),
        ({
            let t = decode_utf8(w);
            t != grammar::KW_IMPORT@ && t != grammar::KW_FN@ && t != grammar::KW_MAIN@
                && t != grammar::KW_LOG@ && t != grammar::KW_CALL@ ==> word_token(t)
                == TokenView::Ident(t)
        }),
{
    lemma_all_ident(w, 0);
    assert(w.subrange(0, w.len() as int) =~= w);
}

/// A lower-case ASCII word lexes to the token that `word_token` gives it.
proof fn lemma_lower_word(w: Seq<char>)
    requires
        w.len() > 0,
        forall|k: int| 0 <= k < w.len() ==> 'a' <= #[trigger] w[k] <= 'z',
    ensures
        scan_at(encode_utf8(w), 0) == Scan::Found(word_token(w), w.len() as int),
        encode_utf8(w).len() == w.len(),
{
    assert(is_ascii_chars(w));
    is_ascii_chars_encode_utf8(w);
    let bs = encode_utf8(w);
    assert forall|k: int| 0 <= k < bs.len() implies is_ident_char(#[trigger] bs[k]) by {
        assert(w[k] as u8 == bs[k]);
        assert('a' <= w[k] <= 'z');
    }
    assert(is_letter(bs[0])) by {
        assert(w[0] as u8 == bs[0]);
    }
    law_word(bs);
    encode_utf8_decode_utf8(w);
}

/// Each of the five reserved words, alone, lexes to its keyword token over
/// all of its bytes, never to an identifier.
pub proof fn law_reserved_words()
    ensures
        scan_at(encode_utf8(grammar::KW_IMPORT@), 0) == Scan::Found(TokenView::Import, 6),
        scan_at(encode_utf8(grammar::KW_FN@), 0) == Scan::Found(TokenView::Fn, 2),
        scan_at(encode_utf8(grammar::KW_MAIN@), 0) == Scan::Found(TokenView::Main, 4),
        scan_at(encode_utf8(grammar::KW_LOG@), 0) == Scan::Found(TokenView::Log, 3),
        scan_at(encode_utf8(grammar::KW_CALL@), 0) == Scan::Found(TokenView::Call, 4),
{
    reveal_strlit("import");
    reveal_strlit("fn");
    reveal_strlit("main");
    reveal_strlit("log");
    reveal_strlit("call");
    assert forall|k: int| 0 <= k < 6 implies 'a' <= #[trigger] grammar::KW_IMPORT@[k] <= 'z' by {}
    assert forall|k: int| 0 <= k < 2 implies 'a' <= #[trigger] grammar::KW_FN@[k] <= 'z' by {}
    assert forall|k: int| 0 <= k < 4 implies 'a' <= #[trigger] grammar::KW_MAIN@[k] <= 'z' by {}
    assert forall|k: int| 0 <= k < 3 implies 'a' <= #[trigger] grammar::KW_LOG@[k] <= 'z' by {}
    assert forall|k: int| 0 <= k < 4 implies 'a' <= #[trigger] grammar::KW_CALL@[k] <= 'z' by {}
    lemma_lower_word(grammar::KW_IMPORT@);
    lemma_lower_word(grammar::KW_FN@);
    lemma_lower_word(grammar::KW_MAIN@);
    lemma_lower_word(grammar::KW_LOG@);
    lemma_lower_word(grammar::KW_CALL@);
}

proof fn lemma_run_bytes(bs: Seq<u8>, i: int)
    requires
        0 <= i <= bs.len(),
    ensures
        forall|k: int| i <= k < ident_end(bs, i) ==> is_ident_char(#[trigger] bs[k]),
        forall|k: int| i <= k < digit_end(bs, i) ==> is_digit(#[trigger] bs[k]),
        forall|k: int| i <= k < quote_end(bs, i) ==> #[trigger] bs[k] != 34,
        i <= ident_end(bs, i) <= bs.len(),
        i <= digit_end(bs, i) <= bs.len(),
        i <= quote_end(bs, i) <= bs.len(),
        quote_end(bs, i) < bs.len() ==> bs[quote_end(bs, i)] == 34,
    decreases bs.len() - i,
{
    if i < bs.len() {
        lemma_run_bytes(bs, i + 1);
    }
}

/// Lexing again exactly the bytes that a string, identifier or number token
/// spans gives that same token, payload included, spanning all of them.
pub proof fn law_relex_token(bs: Seq<u8>, j: int)
    requires
        0 <= j <= bs.len(),
        scan_at(bs, j) matches Scan::Found(t, _) && (t is Str || t is Ident || t is Number),
    ensures
        ({
            let k = scan_at(bs, j)->Found_1;
            let sub = bs.subrange(j, k);
            scan_at(sub, ws_end(sub, 0)) == Scan::Found(scan_at(bs, j)->Found_0, sub.len() as int)
        }),
{
    lemma_run_bytes(bs, j + 1);
    lemma_run_bytes(bs, j);
    let k = scan_at(bs, j)->Found_1;
    let sub = bs.subrange(j, k);
    if bs[j] == 34 {
        let q = quote_end(bs, j + 1);
        let s = bs.subrange(j + 1, q);
        assert forall|x: int| 0 <= x < s.len() implies #[trigger] s[x] != 34 by {
            assert(s[x] == bs[j + 1 + x]);
        }
        assert(q < bs.len() && bs[q] == 34);
        assert(sub.len() == s.len() + 2);
        assert forall|x: int| 0 <= x < sub.len() implies #[trigger] sub[x] == (seq![34u8] + s
            + seq![34u8])[x] by {
            assert(sub[x] == bs[j + x]);
        }
        assert(sub =~= seq![34u8] + s + seq![34u8]);
        law_string_literal(s);
    } else if is_letter(bs[j]) {
        assert forall|x: int| 0 <= x < sub.len() implies is_ident_char(#[trigger] sub[x]) by {
            assert(sub[x] == bs[j + x]);
        }
        lemma_all_ident(sub, 0);
        assert(sub.subrange(0, sub.len() as int) =~= sub);
    } else {
        assert forall|x: int| 0 <= x < sub.len() implies is_digit(#[trigger] sub[x]) by {
            assert(sub[x] == bs[j + x]);
        }
        lemma_all_digits(sub, 0);
        assert(sub.subrange(0, sub.len() as int) =~= sub);
    }
}

/// Keeping first occurrences leaves each path once, and exactly the paths
/// that occur, so a path written any number of times is loaded once.
pub proof fn law_imports_deduplicated(s: Seq<Seq<char>>)
    ensures
        forall|a: int, b: int|
            0 <= a < b < first_occurrences(s).len() ==> first_occurrences(s)[a]
                != first_occurrences(s)[b],
        forall|p: Seq<char>| s.contains(p) <==> first_occurrences(s).contains(p),
    decreases s.len(),
{
    if s.len() > 0 {
        let init = s.drop_last();
        law_imports_deduplicated(init);
        let d = first_occurrences(init);
        let x = s.last();
        assert forall|p: Seq<char>| s.contains(p) <==> (init.contains(p) || p == x) by {
            if s.contains(p) {
                let i = choose|i: int| 0 <= i < s.len() && s[i] == p;
                if i < s.len() - 1 {
                    assert(init[i] == p);
                }
            }
            if init.contains(p) {
                let i = choose|i: int| 0 <= i < init.len() && init[i] == p;
                assert(s[i] == p);
            }
            if p == x {
                assert(s[s.len() - 1] == p);
            }
        }
        assert forall|p: Seq<char>| d.push(x).contains(p) <==> (d.contains(p) || p == x) by {
            if d.push(x).contains(p) {
                let i = choose|i: int| 0 <= i < d.push(x).len() && d.push(x)[i] == p;
                if i < d.len() {
                    assert(d[i] == p);
                }
            }
            if d.contains(p) {
                let i = choose|i: int| 0 <= i < d.len() && d[i] == p;
                assert(d.push(x)[i] == p);
            }
            if p == x {
                assert(d.push(x)[d.len() as int] == p);
            }
        }
    }
}

/// A cursor as the parser holds it: the current token starts before the
/// lexer's offset, unless it is `Eof`, and both lie within the input.
pub open spec fn cursor_ok(bs: Seq<u8>, c: Cursor) -> bool {
    &&& 0 <= c.at <= c.next <= bs.len()
    &&& (c.tok is Eof || c.at < c.next)
}

/// The cursor after `n` statements read from `c`, if they all parse.
pub open spec fn after_stmts(bs: Seq<u8>, c: Cursor, n: nat) -> Option<Cursor>
    decreases n,
{
    if n == 0 {
        Some(c)
    } else {
        match stmt_step(bs, c) {
            Ok((_, c1)) => after_stmts(bs, c1, (n - 1) as nat),
            Err(_) => None,
        }
    }
}

proof fn lemma_advance_ok(bs: Seq<u8>, c: Cursor)
    requires
        0 <= c.next <= bs.len(),
    ensures
        advance(bs, c) matches Ok(c1) ==> c.next <= c1.at && cursor_ok(bs, c1),
{
    lemma_ws_end_bounds(bs, c.next);
    lemma_scan_bounds(bs, ws_end(bs, c.next));
}

proof fn lemma_stmt_progress(bs: Seq<u8>, c: Cursor)
    requires
        cursor_ok(bs, c),
    ensures
        stmt_step(bs, c) matches Ok((_, c2)) ==> c.at < c2.at && cursor_ok(bs, c2),
{
    lemma_advance_ok(bs, c);
    if let Ok(c1) = advance(bs, c) {
        lemma_advance_ok(bs, c1);
        if let Ok(c2) = advance(bs, c1) {
            lemma_advance_ok(bs, c2);
            if let Ok(c3) = advance(bs, c2) {
                lemma_advance_ok(bs, c3);
            }
        }
    }
}

/// In an included file, an `import` met after any number of statements that
/// parse fails with the error that refuses imports there, at that `import`.
pub proof fn law_import_after_statements(bs: Seq<u8>, c0: Cursor, n: nat)
    requires
        cursor_ok(bs, c0),
        after_stmts(bs, c0, n) matches Some(c) && c.tok is Import,
    ensures
        sub_step(bs, c0) == Err::<(Seq<crate::parser::StmtShape>, Cursor), Failure>(
            Failure::Unexpected(TokenView::Import, EXPECT_NO_IMPORT@, after_stmts(bs, c0, n)->0.at),
        ),
    decreases n,
{
    if n > 0 {
        lemma_stmt_progress(bs, c0);
        let c1 = stmt_step(bs, c0)->Ok_0.1;
        law_import_after_statements(bs, c1, (n - 1) as nat);
    }
}

/// A main file whose `fn main` body is followed by any token but `Eof` fails
/// with an error that expected the end of the file, at that token.
pub proof fn law_trailing_tokens(bs: Seq<u8>, c: Cursor)
    ensures
        ({
            let c1 = imports_step(bs, c)->Ok_0.1;
            let c2 = expect_step(bs, c1, TokenView::Fn, grammar::KW_FN@)->Ok_0;
            let c3 = expect_step(bs, c2, TokenView::Main, grammar::KW_MAIN@)->Ok_0;
            let c4 = body_step(bs, c3)->Ok_0.1;
            imports_step(bs, c) is Ok && expect_step(bs, c1, TokenView::Fn, grammar::KW_FN@) is Ok
                && expect_step(bs, c2, TokenView::Main, grammar::KW_MAIN@) is Ok
                && body_step(bs, c3) is Ok && !(c4.tok is Eof) ==> main_step(bs, c) == Err::<
                (Seq<Seq<char>>, Seq<crate::parser::StmtShape>),
                Failure,
            >(Failure::Unexpected(c4.tok, grammar::EOF@, c4.at))
        }),
{
}

} // verus!
