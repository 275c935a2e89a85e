//! Witchcraft: an AI-native language whose inference sites are typed. This
//! crate holds the verified core: lexing, parsing, type checking, grammar
//! compilation, engine binding and the runtime grammar format.

pub mod span;
pub mod text;
pub mod error;
pub mod grammar;
pub mod engine;
pub mod num;
pub mod chars;
pub mod token;
pub mod lexer;
pub mod ast;
pub mod parser;
pub mod types;
pub mod typeck;
pub mod decoder;
pub mod manifest;
pub mod runtime;
pub mod ir;
pub mod lower;
pub mod env;
pub mod policy;
pub mod json;

use vstd::prelude::*;
use crate::error::{Diagnostic, Stage};

verus! {

/// Parses and type-checks a program. Success means the program is
/// structurally sound; it is never a claim that an inferred value is correct.
/// A lexing or syntax error is reported alone; otherwise every type error is.
pub fn check_source(src: &str) -> (r: Result<(), Vec<Diagnostic>>)
    requires
        src@.len() < 0xFFFF_FFFF,
    ensures
        r is Err ==> r->Err_0@.len() > 0,
        r is Err ==> (r->Err_0@.len() == 1 && (r->Err_0@[0].stage == Stage::Lex
            || r->Err_0@[0].stage == Stage::Parse)) || typeck::all_type_errors(r->Err_0@),
        lexer::lex_spec(src@, 0) matches Err((m, sp)) ==> (r matches Err(ds) && ds@.len() == 1 && ds@[0].stage
            == Stage::Lex && ds@[0].message@ == m && ds@[0].span == Some(sp)),
        parser::empty_source(src@) ==> r is Ok,
        lexer::lex_spec(src@, 0) matches Ok(ts) ==> (parser::plain_program_from(ts, 0) ==> r is Ok),
        r is Ok ==> source_accepted(src@),
        r matches Err(ds) ==> (ds@[0].stage == Stage::Parse ==> lexer::lex_spec(src@, 0) is Ok),
        r matches Err(ds) ==> (typeck::all_type_errors(ds@) ==> source_parses(src@)),
{
    let program = match parser::parse(src) {
        Ok(p) => p,
        Err(d) => {
            let mut ds: Vec<Diagnostic> = Vec::new();
            ds.push(d);
            return Err(ds);
        },
    };
    proof {
        lemma_plain_quiet(src@, program);
        assert(parser::program_derives(lexer::lex_spec(src@, 0)->Ok_0, program.items@));
    }
    typeck::check_program(&program)
}

/// The source lexes, and its tokens form a program by the grammar.
pub open spec fn source_parses(src: Seq<char>) -> bool {
    lexer::lex_spec(src, 0) matches Ok(ts) && exists|p: ast::Program| parser::program_derives(ts, p.items@)
}

/// The source lexes, its tokens form a program by the grammar, and the checker
/// accepts that program.
pub open spec fn source_accepted(src: Seq<char>) -> bool {
    lexer::lex_spec(src, 0) matches Ok(ts) && exists|p: ast::Program|
        parser::program_derives(ts, p.items@) && typeck::program_accepted(p)
}

/// A parsed program of plain statements is quiet: the checker accepts it.
proof fn lemma_plain_quiet(src: Seq<char>, program: ast::Program)
    requires
        lexer::lex_spec(src, 0) matches Ok(ts) ==> (parser::plain_program_from(ts, 0) ==> parser::plain_items(
            program.items@,
            ts,
            parser::plain_starts(ts, 0),
        )),
    ensures
        lexer::lex_spec(src, 0) matches Ok(ts) ==> (parser::plain_program_from(ts, 0) ==> typeck::quiet_program(
            program,
        )),
        lexer::lex_spec(src, 0) matches Ok(ts) ==> (parser::speaking_program(ts) ==> lower::constant_program(
            program.items@,
        )),
{
    if let Ok(ts) = lexer::lex_spec(src, 0) {
        if parser::plain_program_from(ts, 0) {
            let starts = parser::plain_starts(ts, 0);
            assert forall|k: int| 0 <= k < program.items@.len() implies typeck::quiet_item(
                #[trigger] program.items@[k],
            ) by {
                assert(program.items@[k] matches ast::Item::Stmt(s) && parser::plain_stmt_is(s, ts, starts[k]));
            }
            if parser::speaking_program(ts) {
                assert forall|k: int| 0 <= k < program.items@.len() implies (#[trigger] program.items@[k] matches ast::Item::Stmt(
                    st,
                ) && lower::constant_stmt(st)) by {
                    assert(ts[starts[k]].kind == token::TokenKind::Speak);
                    assert(program.items@[k] matches ast::Item::Stmt(s) && parser::plain_stmt_is(s, ts, starts[k]));
                }
            }
        }
    }
}

/// Parses, type-checks and lowers a program to the backend IR. The IR is
/// well formed and every grammar it carries is the compilation of its
/// site's output type.
pub fn lower_source(src: &str) -> (r: Result<ir::Program, Vec<Diagnostic>>)
    requires
        src@.len() < 0xFFFF_FFFF,
    ensures
        r matches Ok(p) ==> ir::program_wf(p) && forall|i: int|
            0 <= i < p.grammars@.len() ==> lower::site_grammar(#[trigger] p.grammars@[i], false),
        r matches Err(ds) ==> ds@.len() > 0,
        r matches Err(ds) ==> (ds@.len() == 1 && (ds@[0].stage == Stage::Lex || ds@[0].stage == Stage::Parse
            || lower::lower_error(ds@[0]))) || typeck::all_type_errors(ds@),
        lexer::lex_spec(src@, 0) matches Err((m, sp)) ==> (r matches Err(ds) && ds@.len() == 1 && ds@[0].stage
            == Stage::Lex && ds@[0].message@ == m && ds@[0].span == Some(sp)),
        parser::empty_source(src@) ==> r is Ok,
        lexer::lex_spec(src@, 0) matches Ok(ts) ==> (parser::speaking_program(ts) ==> r is Ok),
        r is Ok ==> source_accepted(src@),
        r matches Err(ds) ==> (ds@[0].stage == Stage::Runtime ==> source_accepted(src@)),
        r matches Err(ds) ==> (ds@[0].stage == Stage::Parse ==> lexer::lex_spec(src@, 0) is Ok),
        r matches Err(ds) ==> (typeck::all_type_errors(ds@) ==> source_parses(src@)),
{
    lower_source_weaken(src, false)
}

/// Like `lower_source`, optionally weakening every `divine` output type to
/// free text (the compiled litmus knob): weakened, every grammar is bounded
/// free text.
pub fn lower_source_weaken(src: &str, weaken: bool) -> (r: Result<ir::Program, Vec<Diagnostic>>)
    requires
        src@.len() < 0xFFFF_FFFF,
    ensures
        r matches Ok(p) ==> ir::program_wf(p) && forall|i: int|
            0 <= i < p.grammars@.len() ==> lower::site_grammar(#[trigger] p.grammars@[i], weaken),
        r matches Err(ds) ==> ds@.len() > 0,
        r matches Err(ds) ==> (ds@.len() == 1 && (ds@[0].stage == Stage::Lex || ds@[0].stage == Stage::Parse
            || lower::lower_error(ds@[0]))) || typeck::all_type_errors(ds@),
        lexer::lex_spec(src@, 0) matches Err((m, sp)) ==> (r matches Err(ds) && ds@.len() == 1 && ds@[0].stage
            == Stage::Lex && ds@[0].message@ == m && ds@[0].span == Some(sp)),
        parser::empty_source(src@) ==> r is Ok,
        lexer::lex_spec(src@, 0) matches Ok(ts) ==> (parser::speaking_program(ts) ==> r is Ok),
        r is Ok ==> source_accepted(src@),
        r matches Err(ds) ==> (ds@[0].stage == Stage::Runtime ==> source_accepted(src@)),
        r matches Err(ds) ==> (ds@[0].stage == Stage::Parse ==> lexer::lex_spec(src@, 0) is Ok),
        r matches Err(ds) ==> (typeck::all_type_errors(ds@) ==> source_parses(src@)),
{
    let program = match parser::parse(src) {
        Ok(p) => p,
        Err(d) => {
            let mut ds: Vec<Diagnostic> = Vec::new();
            ds.push(d);
            return Err(ds);
        },
    };
    proof {
        lemma_plain_quiet(src@, program);
    }
    typeck::check_program(&program)?;
    proof {
        assert(parser::program_derives(lexer::lex_spec(src@, 0)->Ok_0, program.items@));
    }
    match lower::lower_program_weaken(&program, weaken) {
        Ok(p) => Ok(p),
        Err(d) => {
            let mut ds: Vec<Diagnostic> = Vec::new();
            ds.push(d);
            Err(ds)
        },
    }
}

} // verus!
