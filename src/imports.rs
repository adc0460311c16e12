use vstd::prelude::*;
use vstd::string::StringSliceAdditionalSpecFns;
use crate::lexer::Lexer;
use crate::parser::{
    advance, error_is, main_step, stmts_are, strings_are, sub_step, Cursor, Failure, ParseError,
    Parser, Program, Stmt, StmtShape,
};
use crate::lexer::TokenView;

verus! {

broadcast use vstd::seq::group_seq_axioms;

/// The paths of `s` in order, each kept at its first occurrence only.
pub open spec fn first_occurrences(s: Seq<Seq<char>>) -> Seq<Seq<char>>
    decreases s.len(),
{
    if s.len() == 0 {
        seq![]
    } else {
        let d = first_occurrences(s.drop_last());
        if d.contains(s.last()) {
            d
        } else {
            d.push(s.last())
        }
    }
}

/// The texts of a list of strings.
pub open spec fn views_of(v: Seq<String>) -> Seq<Seq<char>> {
    v.map_values(|x: String| x@)
}

/// Keeps each resolved import path once, at its first occurrence, in the
/// order of the source.
pub fn unique_imports(paths: &Vec<String>) -> (r: Vec<String>)
    ensures
        views_of(r@) == first_occurrences(views_of(paths@)),
{
    // A scan of the kept paths rather than a set of them: with `String` keys
    // vstd's hash set specification proves nothing of membership.
    let mut out: Vec<String> = Vec::new();
    let mut i: usize = 0;
    while i < paths.len()
        invariant
            i <= paths@.len(),
            views_of(out@) == first_occurrences(views_of(paths@.subrange(0, i as int))),
        decreases paths@.len() - i,
    {
        let p = &paths[i];
        let mut seen = false;
        let mut j: usize = 0;
        while j < out.len()
            invariant
                j <= out@.len(),
                seen <==> exists|k: int| 0 <= k < j && out@[k]@ == p@,
            decreases out@.len() - j,
        {
            if out[j] == *p {
                seen = true;
            }
            j = j + 1;
        }
        let ghost before = views_of(paths@.subrange(0, i as int));
        let ghost after = views_of(paths@.subrange(0, i as int + 1));
        proof {
            assert(after.drop_last() =~= before);
            assert(after.last() == p@);
            if seen {
                let k = choose|k: int| 0 <= k < out@.len() && out@[k]@ == p@;
                assert(views_of(out@)[k] == p@);
            } else {
                assert forall|k: int| 0 <= k < views_of(out@).len() implies views_of(out@)[k] != p@ by {
                    assert(out@[k]@ != p@);
                }
            }
        }
        if !seen {
            let ghost prev = out@;
            out.push(p.clone());
            proof {
                assert(views_of(out@) =~= views_of(prev).push(p@));
            }
        }
        i = i + 1;
    }
    proof {
        assert(paths@.subrange(0, paths@.len() as int) =~= paths@);
    }
    out
}

/// What parsing a whole main file gives: its first token, then the grammar.
pub open spec fn root_result(bs: Seq<u8>) -> Result<(Seq<Seq<char>>, Seq<StmtShape>), Failure> {
    match advance(bs, Cursor { tok: TokenView::Eof, at: 0, next: 0 }) {
        Err(f) => Err(f),
        Ok(c) => main_step(bs, c),
    }
}

/// What parsing a whole included file gives.
pub open spec fn included_result(bs: Seq<u8>) -> Result<Seq<StmtShape>, Failure> {
    match advance(bs, Cursor { tok: TokenView::Eof, at: 0, next: 0 }) {
        Err(f) => Err(f),
        Ok(c) => match sub_step(bs, c) {
            Err(f) => Err(f),
            Ok((ss, _)) => Ok(ss),
        },
    }
}

/// Lexes and parses the source of a main file named `file`.
pub fn parse_root(file: &str, src: &str) -> (r: Result<(Vec<String>, Program), ParseError>)
    requires
        src.spec_bytes().len() <= isize::MAX,
    ensures
        match root_result(src.spec_bytes()) {
            Ok((ps, ss)) => match r {
                Ok((v, prog)) => strings_are(v@, ps) && stmts_are(prog.stmts@, ss),
                Err(_) => false,
            },
            Err(f) => match r {
                Ok(_) => false,
                Err(e) => error_is(src.spec_bytes(), file@, e, f),
            },
        },
{
    let lx = Lexer::with_file(file, src);
    let mut p = match Parser::new(lx) {
        Ok(p) => p,
        Err(e) => return Err(e),
    };
    p.parse_main_program()
}

/// Lexes and parses the source of an included file named `file`.
pub fn parse_included(file: &str, src: &str) -> (r: Result<Vec<Stmt>, ParseError>)
    requires
        src.spec_bytes().len() <= isize::MAX,
    ensures
        match included_result(src.spec_bytes()) {
            Ok(ss) => match r {
                Ok(v) => stmts_are(v@, ss),
                Err(_) => false,
            },
            Err(f) => match r {
                Ok(_) => false,
                Err(e) => error_is(src.spec_bytes(), file@, e, f),
            },
        },
{
    let lx = Lexer::with_file(file, src);
    let mut p = match Parser::new(lx) {
        Ok(p) => p,
        Err(e) => return Err(e),
    };
    p.parse_sub_programs()
}

} // verus!
