//! Recursive-descent parser: tokens -> syntax tree. Operator precedence (low
//! to high): `or`, `and`, comparison, `+ -`, `* /`, unary, postfix
//! (method call / field access).
//!
//! The grammar is written out as relations between a token range and a tree
//! (`derives` for expressions, `type_derives`, `stmt_derives`, `item_derives`
//! and `program_derives`, with their list forms), each loop taking the
//! longest phrase it can (`stops`). Every parsing function promises that a
//! tree it returns is the one its consumed tokens derive.

use vstd::prelude::*;
use crate::ast::{opt_view, BinOp, Capability, DefineDecl, DivineStmt, EnactArm, Expr, FamiliarDecl, Item, MemoryDecl, Param, Program, Stmt, StrSeg, TypeDecl, TypeExpr, UnOp, VariantDef};
use crate::chars::{chars_of, is_uppercase};
use crate::error::{Diagnostic, Stage};
use crate::lexer::{lex_spec, tok_view, toks_view, tokens_well_formed, Lexer, PartView, TokView};
use crate::num::Num;
use crate::span::Span;
use crate::text::{owned, push_str, str_eq};
use crate::token::{kind_name, spec_kind_name, StrPart, Token, TokenKind};

verus! {

/// A parse result whose error, if any, is a syntax error.
pub open spec fn syntax_err<T>(r: Result<T, Diagnostic>) -> bool {
    r is Err ==> r->Err_0.stage == Stage::Parse
}

/// How a token is named in a syntax error.
pub open spec fn token_description(t: Token) -> Seq<char> {
    match t.kind {
        TokenKind::Eof => "end of input"@,
        TokenKind::Ident => "identifier `"@ + t.text@ + "`"@,
        TokenKind::Number => "number `"@ + t.number.spec_text() + "`"@,
        TokenKind::Str => "a glyph literal"@,
        k => "`"@ + spec_kind_name(k) + "`"@,
    }
}

/// The comparison operator a token stands for, if any.
pub open spec fn comparison_of(k: TokenKind) -> Option<BinOp> {
    match k {
        TokenKind::Lt => Some(BinOp::Lt),
        TokenKind::Le => Some(BinOp::Le),
        TokenKind::Gt => Some(BinOp::Gt),
        TokenKind::Ge => Some(BinOp::Ge),
        TokenKind::EqEq => Some(BinOp::Eq),
        TokenKind::Ne => Some(BinOp::Ne),
        _ => None,
    }
}

/// A literal that is an expression by itself: a number, `true` or `false`.
pub open spec fn literal_kind(k: TokenKind) -> bool {
    k == TokenKind::Number || k == TokenKind::True || k == TokenKind::False
}

/// Can an expression go on past an operand when this token follows it? (A
/// field or method access, or a binary operator.)
pub open spec fn extends_operand(k: TokenKind) -> bool {
    ||| k == TokenKind::Dot
    ||| k == TokenKind::Star
    ||| k == TokenKind::Slash
    ||| k == TokenKind::Plus
    ||| k == TokenKind::Minus
    ||| comparison_of(k) is Some
    ||| k == TokenKind::And
    ||| k == TokenKind::Or
}

/// The literal at `j` is a whole expression: nothing after it extends it.
pub open spec fn lone_literal_at(ts: Seq<TokView>, j: int) -> bool {
    &&& 0 <= j
    &&& j + 1 < ts.len()
    &&& literal_kind(ts[j].kind)
    &&& !extends_operand(ts[j + 1].kind)
}

/// `e` is the expression the literal token `t` stands for.
pub open spec fn literal_expr_is(e: Expr, t: TokView) -> bool {
    match t.kind {
        TokenKind::Number => e matches Expr::Number(n, sp) && n.spec_mantissa() == t.number.0
            && n.spec_scale() == t.number.1 && sp == t.span,
        TokenKind::True => e == Expr::Bool(true, t.span),
        TokenKind::False => e == Expr::Bool(false, t.span),
        _ => false,
    }
}

/// Where the plain statement that starts at `i` ends: `speak L`,
/// `let x = L`, `var x = L` or `x = L`, for a lone literal `L`.
pub open spec fn plain_stmt_end(ts: Seq<TokView>, i: int) -> Option<int> {
    if !(0 <= i < ts.len()) {
        None
    } else if ts[i].kind == TokenKind::Speak && lone_literal_at(ts, i + 1) {
        Some(i + 2)
    } else if (ts[i].kind == TokenKind::Let || ts[i].kind == TokenKind::Var) && i + 2 < ts.len()
        && ts[i + 1].kind == TokenKind::Ident && ts[i + 2].kind == TokenKind::Eq && lone_literal_at(ts, i + 3) {
        Some(i + 4)
    } else if ts[i].kind == TokenKind::Ident && i + 1 < ts.len() && ts[i + 1].kind == TokenKind::Eq
        && lone_literal_at(ts, i + 2) {
        Some(i + 3)
    } else {
        None
    }
}

/// `s` is the syntax tree of the plain statement that starts at `i`.
pub open spec fn plain_stmt_is(s: Stmt, ts: Seq<TokView>, i: int) -> bool {
    match ts[i].kind {
        TokenKind::Speak => s matches Stmt::Speak { value, span } && literal_expr_is(value, ts[i + 1])
            && span == ts[i].span,
        TokenKind::Let => s matches Stmt::Let { name, ty, value, span } && name@ == ts[i + 1].text
            && ty is None && literal_expr_is(value, ts[i + 3]) && span == ts[i].span,
        TokenKind::Var => s matches Stmt::Var { name, ty, value, span } && name@ == ts[i + 1].text
            && ty is None && literal_expr_is(value, ts[i + 3]) && span == ts[i].span,
        TokenKind::Ident => s matches Stmt::Assign { name, value, span } && name@ == ts[i].text
            && literal_expr_is(value, ts[i + 2]) && span == ts[i].span,
        _ => false,
    }
}

/// From `i` on, the tokens are plain statements up to the end of input.
pub open spec fn plain_program_from(ts: Seq<TokView>, i: int) -> bool
    decreases ts.len() - i,
{
    if !(0 <= i < ts.len()) {
        false
    } else if ts[i].kind == TokenKind::Eof {
        true
    } else {
        match plain_stmt_end(ts, i) {
            Some(j) => i < j && plain_program_from(ts, j),
            None => false,
        }
    }
}

/// The start of each plain statement from `i` on.
pub open spec fn plain_starts(ts: Seq<TokView>, i: int) -> Seq<int>
    decreases ts.len() - i,
{
    if !(0 <= i < ts.len()) || ts[i].kind == TokenKind::Eof {
        Seq::empty()
    } else {
        match plain_stmt_end(ts, i) {
            Some(j) => if i < j {
                seq![i] + plain_starts(ts, j)
            } else {
                Seq::empty()
            },
            None => Seq::empty(),
        }
    }
}

/// `items` are the statements that start at `starts`, in order.
pub open spec fn plain_items(items: Seq<Item>, ts: Seq<TokView>, starts: Seq<int>) -> bool {
    &&& items.len() == starts.len()
    &&& forall|k: int|
        0 <= k < items.len() ==> (#[trigger] items[k] matches Item::Stmt(s) && plain_stmt_is(s, ts, starts[k]))
}

/// A program of plain `speak L` statements only.
pub open spec fn speaking_program(ts: Seq<TokView>) -> bool {
    &&& plain_program_from(ts, 0)
    &&& forall|k: int|
        0 <= k < plain_starts(ts, 0).len() ==> ts[#[trigger] plain_starts(ts, 0)[k]].kind == TokenKind::Speak
}

/// Can an operand (a primary expression) start with this token?
pub open spec fn starts_primary(k: TokenKind) -> bool {
    ||| literal_kind(k)
    ||| k == TokenKind::Str
    ||| k == TokenKind::LParen
    ||| k == TokenKind::LBracket
    ||| k == TokenKind::LBrace
    ||| k == TokenKind::Listen
    ||| k == TokenKind::Ident
}

/// Can an expression start with this token?
pub open spec fn starts_expr(k: TokenKind) -> bool {
    starts_primary(k) || k == TokenKind::Not || k == TokenKind::Minus
}

/// Can a statement start with this token?
pub open spec fn starts_stmt(k: TokenKind) -> bool {
    ||| k == TokenKind::Let
    ||| k == TokenKind::Var
    ||| k == TokenKind::Oracle
    ||| k == TokenKind::Speak
    ||| k == TokenKind::While
    ||| k == TokenKind::If
    ||| k == TokenKind::Return
    ||| k == TokenKind::With
    ||| k == TokenKind::Within
    ||| k == TokenKind::Memory
    ||| k == TokenKind::Divine
    ||| k == TokenKind::Enact
    ||| starts_expr(k)
}

/// Can a top-level item start with this token?
pub open spec fn starts_item(k: TokenKind) -> bool {
    k == TokenKind::Define || k == TokenKind::Type || k == TokenKind::Familiar || starts_stmt(k)
}

/// The tokens a statement must open with, after its first: a keyword's
/// mandatory followers (`let x`, `oracle o = summon "id"`, `with grant`,
/// `within s`, `memory m {`, `divine x:`) or the start of its expression.
pub open spec fn stmt_opening(ts: Seq<TokView>, i: int) -> bool {
    match ts[i].kind {
        TokenKind::Let => ts[i + 1].kind == TokenKind::Ident,
        TokenKind::Var => ts[i + 1].kind == TokenKind::Ident,
        TokenKind::Oracle => ts[i + 1].kind == TokenKind::Ident && ts[i + 2].kind == TokenKind::Eq && ts[i
            + 3].kind == TokenKind::Summon && ts[i + 4].kind == TokenKind::Str,
        TokenKind::Speak => starts_expr(ts[i + 1].kind),
        TokenKind::While => starts_expr(ts[i + 1].kind),
        TokenKind::If => starts_expr(ts[i + 1].kind),
        TokenKind::With => ts[i + 1].kind == TokenKind::Grant,
        TokenKind::Within => ts[i + 1].kind == TokenKind::Ident,
        TokenKind::Memory => ts[i + 1].kind == TokenKind::Ident && ts[i + 2].kind == TokenKind::LBrace,
        TokenKind::Divine => ts[i + 1].kind == TokenKind::Ident && ts[i + 2].kind == TokenKind::Colon,
        TokenKind::Enact => starts_expr(ts[i + 1].kind),
        TokenKind::Return => true,
        k => starts_expr(k),
    }
}

/// The operator a token stands for at a binary precedence level. Levels,
/// loosest first: 7 `or`, 6 `and`, 5 comparisons, 4 `+ -`, 3 `* /`; below
/// them 2 is unary, 1 postfix and 0 primary.
pub open spec fn level_op(level: int, k: TokenKind) -> Option<BinOp> {
    if level == 7 {
        if k == TokenKind::Or {
            Some(BinOp::Or)
        } else {
            None
        }
    } else if level == 6 {
        if k == TokenKind::And {
            Some(BinOp::And)
        } else {
            None
        }
    } else if level == 5 {
        comparison_of(k)
    } else if level == 4 {
        if k == TokenKind::Plus {
            Some(BinOp::Add)
        } else if k == TokenKind::Minus {
            Some(BinOp::Sub)
        } else {
            None
        }
    } else if level == 3 {
        if k == TokenKind::Star {
            Some(BinOp::Mul)
        } else if k == TokenKind::Slash {
            Some(BinOp::Div)
        } else {
            None
        }
    } else {
        None
    }
}

/// A method call `.name(` begins at `k`.
pub open spec fn method_call_at(ts: Seq<TokView>, k: int) -> bool {
    &&& ts[k].kind == TokenKind::Dot
    &&& ts[k + 1].kind == TokenKind::Ident
    &&& ts[k + 2].kind == TokenKind::LParen
}

/// An expression parsed at `level` stops before a token of kind `k`: `k`
/// neither continues a postfix chain nor is an operator of that level or
/// a tighter one (the longest expression is always taken).
pub open spec fn stops(level: int, k: TokenKind) -> bool {
    &&& (level >= 1 ==> k != TokenKind::Dot)
    &&& (level >= 3 ==> level_op(3, k) is None)
    &&& (level >= 4 ==> level_op(4, k) is None)
    &&& (level >= 5 ==> level_op(5, k) is None)
    &&& (level >= 6 ==> level_op(6, k) is None)
    &&& (level >= 7 ==> level_op(7, k) is None)
}

/// Does a name start with an uppercase letter (and so name a variant)?
pub open spec fn variant_name(text: Seq<char>) -> bool {
    text.len() > 0 && crate::chars::unicode_uppercase(text[0])
}

/// The segments of a glyph literal follow its parts: literal text as it
/// stands, and for each interpolation the expression its source text
/// derives.
pub open spec fn segs_match(segs: Seq<StrSeg>, parts: Seq<PartView>) -> bool
    decreases segs, 0int, 1int,
{
    &&& segs.len() == parts.len()
    &&& forall|m: int| 0 <= m < segs.len() ==> seg_matches(#[trigger] segs[m], parts[m])
}

/// One segment follows one part of a glyph literal.
pub open spec fn seg_matches(seg: StrSeg, part: PartView) -> bool
    decreases seg, 0int, 0int,
{
    match (seg, part) {
        (StrSeg::Lit(a), PartView::Lit(b)) => a@ == b,
        (StrSeg::Interp(inner), PartView::Expr(raw)) => lex_spec(raw, 0) matches Ok(ts) && raw.len()
            < 0xFFFF_FFFF && ts.len() > 0 && derives(ts, 0, *inner, 7, ts.len() - 1) && stops(
            7,
            ts[ts.len() - 1].kind,
        ),
        _ => false,
    }
}

/// The source text of an interpolation lexes, and its tokens form the
/// expression `e`, up to the end of input.
pub open spec fn interp_derives(raw: Seq<char>, e: Expr) -> bool {
    lex_spec(raw, 0) matches Ok(ts) && raw.len() < 0xFFFF_FFFF && ts.len() > 0 && derives(
        ts,
        0,
        e,
        7,
        ts.len() - 1,
    ) && stops(7, ts[ts.len() - 1].kind)
}

/// The grammar of expressions: the tokens from `i` up to (not including)
/// `j` form the expression `e` at precedence `level` (see `level_op`).
/// Binary operators associate to the left; parentheses group and leave no
/// trace in the tree.
pub open spec fn derives(ts: Seq<TokView>, i: int, e: Expr, level: int, j: int) -> bool
    decreases e, j - i, level,
{
    if !(0 <= i < j < ts.len()) || !(0 <= level <= 7) {
        false
    } else if level >= 3 {
        ||| (derives(ts, i, e, level - 1, j) && stops(level - 1, ts[j].kind))
        ||| (e matches Expr::Binary { op, lhs, rhs, span } && exists|k: int|
            #![trigger ts[k]]
            i < k < j && level_op(level, ts[k].kind) == Some(op) && span == ts[k].span && derives(
                ts,
                i,
                *lhs,
                level,
                k,
            ) && derives(ts, k + 1, *rhs, level - 1, j) && stops(level - 1, ts[j].kind))
    } else if level == 2 {
        ||| (e matches Expr::Unary { op, rhs, span } && ts[i].kind == TokenKind::Not && op == UnOp::Not && span
            == ts[i].span && derives(ts, i + 1, *rhs, 2, j) && stops(2, ts[j].kind))
        ||| (e matches Expr::Unary { op, rhs, span } && ts[i].kind == TokenKind::Minus && op == UnOp::Neg
            && span == ts[i].span && derives(ts, i + 1, *rhs, 2, j) && stops(2, ts[j].kind))
        ||| (derives(ts, i, e, 1, j) && stops(1, ts[j].kind))
    } else if level == 1 {
        ||| derives(ts, i, e, 0, j)
        ||| (e matches Expr::Field { recv, field, span } && i < j - 2 && ts[j - 2].kind == TokenKind::Dot
            && span == ts[j - 2].span && ts[j - 1].kind == TokenKind::Ident && field@ == ts[j - 1].text
            && ts[j].kind != TokenKind::LParen && derives(ts, i, *recv, 1, j - 2))
        ||| (e matches Expr::Method { recv, method, args, span } && exists|k: int|
            i < k && k + 3 < j && #[trigger] method_call_at(ts, k) && span == ts[k].span && method@ == ts[k
                + 1].text && ts[j - 1].kind == TokenKind::RParen && derives(ts, i, *recv, 1, k) && list_derives(
                ts,
                k + 3,
                args@,
                j - 1,
            ))
    } else {
        match ts[i].kind {
            TokenKind::Number => j == i + 1 && literal_expr_is(e, ts[i]),
            TokenKind::True => j == i + 1 && literal_expr_is(e, ts[i]),
            TokenKind::False => j == i + 1 && literal_expr_is(e, ts[i]),
            TokenKind::Str => e matches Expr::Str(segs, span) && j == i + 1 && span == ts[i].span && segs_match(
                segs@,
                ts[i].parts,
            ),
            TokenKind::LParen => i + 1 < j - 1 && ts[j - 1].kind == TokenKind::RParen && derives(
                ts,
                i + 1,
                e,
                7,
                j - 1,
            ),
            TokenKind::LBracket => e matches Expr::List { items, span } && span == ts[i].span && i + 1 <= j - 1
                && ts[j - 1].kind == TokenKind::RBracket && list_derives(ts, i + 1, items@, j - 1),
            TokenKind::LBrace => e matches Expr::Record { fields, span } && span == ts[i].span && i + 1 <= j
                - 1 && ts[j - 1].kind == TokenKind::RBrace && fields_derive(ts, i + 1, fields@, j - 1),
            TokenKind::Listen => e matches Expr::Call { callee, args, span } && callee@ == "listen"@ && span
                == ts[i].span && ts[i + 1].kind == TokenKind::LParen && i + 2 <= j - 1 && ts[j - 1].kind
                == TokenKind::RParen && list_derives(ts, i + 2, args@, j - 1),
            TokenKind::Ident => if ts[i + 1].kind == TokenKind::LParen {
                &&& i + 2 <= j - 1
                &&& ts[j - 1].kind == TokenKind::RParen
                &&& if variant_name(ts[i].text) {
                    e matches Expr::Variant { name, fields, span } && name@ == ts[i].text && span == ts[i].span
                        && fields_derive(ts, i + 2, fields@, j - 1)
                } else {
                    e matches Expr::Call { callee, args, span } && callee@ == ts[i].text && span == ts[i].span
                        && list_derives(ts, i + 2, args@, j - 1)
                }
            } else {
                &&& j == i + 1
                &&& if variant_name(ts[i].text) {
                    e matches Expr::Variant { name, fields, span } && name@ == ts[i].text && fields@.len() == 0
                        && span == ts[i].span
                } else {
                    e matches Expr::Ident(name, span) && name@ == ts[i].text && span == ts[i].span
                }
            },
            _ => false,
        }
    }
}

/// Expressions from `i` to `j`, each followed by a comma.
pub open spec fn commas_derive(ts: Seq<TokView>, i: int, items: Seq<Expr>, j: int) -> bool
    decreases items, j - i, 8int,
{
    if items.len() == 0 {
        j == i
    } else {
        &&& i < j
        &&& ts[j - 1].kind == TokenKind::Comma
        &&& exists|k: int|
            #![trigger ts[k]]
            i <= k < j - 1 && commas_derive(ts, i, items.drop_last(), k) && derives(
                ts,
                k,
                items.last(),
                7,
                j - 1,
            )
    }
}

/// A comma-separated list of expressions (a trailing comma allowed) from
/// `i` up to the closing token at `j`.
pub open spec fn list_derives(ts: Seq<TokView>, i: int, items: Seq<Expr>, j: int) -> bool
    decreases items, j - i, 9int,
{
    &&& i <= j
    &&& {
        ||| commas_derive(ts, i, items, j)
        ||| (items.len() > 0 && exists|k: int|
            #![trigger ts[k]]
            i <= k < j && commas_derive(ts, i, items.drop_last(), k) && derives(
                ts,
                k,
                items.last(),
                7,
                j,
            ))
    }
}

/// `name: expr`, or a bare `name` that stands for `name: name`, from `k` to `j`.
pub open spec fn field_derives(ts: Seq<TokView>, k: int, f: (String, Expr), j: int) -> bool
    decreases f, j - k, 8int,
{
    &&& 0 <= k < j < ts.len()
    &&& ts[k].kind == TokenKind::Ident
    &&& f.0@ == ts[k].text
    &&& {
        ||| (ts[k + 1].kind == TokenKind::Colon && k + 2 < j && derives(ts, k + 2, f.1, 7, j))
        ||| (f.1 matches Expr::Ident(n, sp) && j == k + 1 && ts[k + 1].kind != TokenKind::Colon && n@
            == ts[k].text && sp == ts[k].span)
    }
}

/// Fields from `i` to `j`, each followed by a comma.
pub open spec fn field_commas_derive(ts: Seq<TokView>, i: int, fields: Seq<(String, Expr)>, j: int) -> bool
    decreases fields, j - i, 9int,
{
    if fields.len() == 0 {
        j == i
    } else {
        &&& i < j
        &&& ts[j - 1].kind == TokenKind::Comma
        &&& exists|k: int|
            #![trigger ts[k]]
            i <= k < j - 1 && field_commas_derive(ts, i, fields.drop_last(), k) && field_derives(
                ts,
                k,
                fields.last(),
                j - 1,
            )
    }
}

/// Comma-separated fields (a trailing comma allowed) from `i` up to the
/// closing token at `j`.
pub open spec fn fields_derive(ts: Seq<TokView>, i: int, fields: Seq<(String, Expr)>, j: int) -> bool
    decreases fields, j - i, 10int,
{
    &&& i <= j
    &&& {
        ||| field_commas_derive(ts, i, fields, j)
        ||| (fields.len() > 0 && exists|k: int|
            #![trigger ts[k]]
            i <= k < j && field_commas_derive(ts, i, fields.drop_last(), k) && field_derives(
                ts,
                k,
                fields.last(),
                j,
            ))
    }
}

/// `n` is the number the token `t` carries.
pub open spec fn num_is(n: Num, t: TokView) -> bool {
    t.kind == TokenKind::Number && n.spec_mantissa() == t.number.0 && n.spec_scale() == t.number.1
}

/// The grammar of types: the tokens from `i` up to `j` form the type `t`.
pub open spec fn type_derives(ts: Seq<TokView>, i: int, t: TypeExpr, j: int) -> bool
    decreases j - i, 2int,
{
    if !(0 <= i < j < ts.len()) {
        false
    } else {
        match ts[i].kind {
            TokenKind::LBrace => t matches TypeExpr::Record(fields, span) && span == ts[i].span && i + 1 <= j - 1
                && ts[j - 1].kind == TokenKind::RBrace && typed_fields_derive(ts, i + 1, fields@, j - 1),
            TokenKind::OneOf => t matches TypeExpr::OneOf(vs, span) && span == ts[i].span && ts[i + 1].kind
                == TokenKind::LBrace && i + 2 <= j - 1 && ts[j - 1].kind == TokenKind::RBrace && variants_derive(
                ts,
                i + 2,
                vs@,
                j - 1,
            ),
            TokenKind::Ident => if ts[i].text == "list"@ && ts[i + 1].kind == TokenKind::Ident && ts[i + 1].text
                == "of"@ {
                t matches TypeExpr::List { elem, lo, hi, span } && span == ts[i].span && match (lo, hi) {
                    (Some(l), Some(h)) => num_is(l, ts[i + 2]) && ts[i + 3].kind == TokenKind::DotDot && num_is(
                        h,
                        ts[i + 4],
                    ) && ts[i + 5].kind == TokenKind::Ident && ts[i + 5].text == "of"@ && i + 6 < j
                        && type_derives(ts, i + 6, *elem, j),
                    (None, None) => ts[i + 2].kind != TokenKind::Number && i + 2 < j && type_derives(
                        ts,
                        i + 2,
                        *elem,
                        j,
                    ),
                    _ => false,
                }
            } else if ts[i + 1].kind == TokenKind::In {
                t matches TypeExpr::Refined { base, lo, hi, span } && base@ == ts[i].text && span == ts[i].span
                    && num_is(lo, ts[i + 2]) && ts[i + 3].kind == TokenKind::DotDot && num_is(hi, ts[i + 4]) && j
                    == i + 5
            } else {
                t matches TypeExpr::Named(n, span) && n@ == ts[i].text && span == ts[i].span && j == i + 1
            },
            TokenKind::Oracle => t matches TypeExpr::Named(n, span) && n@ == "oracle"@ && span == ts[i].span && j
                == i + 1,
            _ => false,
        }
    }
}

/// `name: T` from `k` to `j`.
pub open spec fn field_type_derives(ts: Seq<TokView>, k: int, f: (String, TypeExpr), j: int) -> bool
    decreases j - k, 0int,
{
    &&& 0 <= k
    &&& k + 2 < j
    &&& ts[k].kind == TokenKind::Ident
    &&& f.0@ == ts[k].text
    &&& ts[k + 1].kind == TokenKind::Colon
    &&& type_derives(ts, k + 2, f.1, j)
}

/// Typed fields from `i` up to the closing token at `j`, each optionally
/// followed by a comma.
pub open spec fn typed_fields_derive(ts: Seq<TokView>, i: int, fields: Seq<(String, TypeExpr)>, j: int) -> bool
    decreases j - i, 1int,
{
    if fields.len() == 0 {
        j == i
    } else {
        exists|k: int|
            #![trigger ts[k]]
            i <= k < j && typed_fields_derive(ts, i, fields.drop_last(), k) && (field_type_derives(
                ts,
                k,
                fields.last(),
                j,
            ) || (ts[j - 1].kind == TokenKind::Comma && field_type_derives(ts, k, fields.last(), j - 1)))
    }
}

/// A variant `Name` or `Name(fields)` from `k` to `j`.
pub open spec fn variant_derives(ts: Seq<TokView>, k: int, v: VariantDef, j: int) -> bool
    decreases j - k, 0int,
{
    &&& 0 <= k < j
    &&& ts[k].kind == TokenKind::Ident
    &&& v.name@ == ts[k].text
    &&& v.span == ts[k].span
    &&& {
        ||| (j == k + 1 && ts[k + 1].kind != TokenKind::LParen && v.fields@.len() == 0)
        ||| (ts[k + 1].kind == TokenKind::LParen && k + 2 <= j - 1 && ts[j - 1].kind == TokenKind::RParen
            && typed_fields_derive(ts, k + 2, v.fields@, j - 1))
    }
}

/// Variants from `i` up to the closing token at `j`, each optionally
/// followed by a comma.
pub open spec fn variants_derive(ts: Seq<TokView>, i: int, vs: Seq<VariantDef>, j: int) -> bool
    decreases j - i, 1int,
{
    if vs.len() == 0 {
        j == i
    } else {
        exists|k: int|
            #![trigger ts[k]]
            i <= k < j && variants_derive(ts, i, vs.drop_last(), k) && (variant_derives(ts, k, vs.last(), j) || (
            ts[j - 1].kind == TokenKind::Comma && variant_derives(ts, k, vs.last(), j - 1)))
    }
}

/// A capability `kind`, `kind(param)` or `kind param` from `k` to `j`.
pub open spec fn cap_derives(ts: Seq<TokView>, k: int, c: Capability, j: int) -> bool {
    &&& 0 <= k
    &&& ts[k].kind == TokenKind::Ident
    &&& c.kind@ == ts[k].text
    &&& c.span == ts[k].span
    &&& if ts[k + 1].kind == TokenKind::LParen {
        ts[k + 2].kind == TokenKind::Ident && ts[k + 3].kind == TokenKind::RParen && opt_view(c.param) == Some(
            ts[k + 2].text,
        ) && j == k + 4
    } else if ts[k + 1].kind == TokenKind::Ident {
        opt_view(c.param) == Some(ts[k + 1].text) && j == k + 2
    } else {
        c.param is None && j == k + 1
    }
}

/// One or more comma-separated capabilities from `i` to `j`.
pub open spec fn caps_derive(ts: Seq<TokView>, i: int, caps: Seq<Capability>, j: int) -> bool
    decreases caps.len(),
{
    if caps.len() == 0 {
        false
    } else if caps.len() == 1 {
        cap_derives(ts, i, caps[0], j)
    } else {
        exists|k: int|
            #![trigger ts[k]]
            i < k < j && caps_derive(ts, i, caps.drop_last(), k) && ts[k].kind == TokenKind::Comma && cap_derives(
                ts,
                k + 1,
                caps.last(),
                j,
            )
    }
}

/// The governance settings of a `memory` declaration as far as they have
/// been read: the scope, the retention amount (a number's mantissa and scale)
/// and unit, the retrieval modes in order, and whether audit is required.
pub struct MemSettings {
    pub scope: Option<Seq<char>>,
    pub retention: Option<((nat, nat), Seq<char>)>,
    pub retrieval: Seq<Seq<char>>,
    pub audit: bool,
}

/// Settings before any is read.
pub open spec fn no_settings() -> MemSettings {
    MemSettings { scope: None, retention: None, retrieval: Seq::empty(), audit: false }
}

/// The settings a `memory` declaration holds.
pub open spec fn settings_of(d: MemoryDecl) -> MemSettings {
    MemSettings {
        scope: opt_view(d.scope),
        retention: match d.retention {
            Some((n, u)) => Some(((n.spec_mantissa(), n.spec_scale()), u@)),
            None => None,
        },
        retrieval: crate::text::views(d.retrieval@),
        audit: d.audit_required,
    }
}

/// The setting that starts at `k`, applied to `acc`, and where it ends:
/// `scope S`, `retention N [unit]`, `retrieval R` (one more mode) or
/// `audit A` (required when `A` is `required`); a later setting of a kind
/// replaces an earlier one.
pub open spec fn mem_setting(ts: Seq<TokView>, k: int, acc: MemSettings) -> Option<(MemSettings, int)> {
    if !(0 <= k && k + 1 < ts.len()) || ts[k].kind != TokenKind::Ident {
        None
    } else if ts[k].text == "scope"@ {
        if ts[k + 1].kind == TokenKind::Ident {
            Some((MemSettings { scope: Some(ts[k + 1].text), ..acc }, k + 2))
        } else {
            None
        }
    } else if ts[k].text == "retention"@ {
        if ts[k + 1].kind == TokenKind::Number {
            if ts[k + 2].kind == TokenKind::Ident {
                Some((MemSettings { retention: Some((ts[k + 1].number, ts[k + 2].text)), ..acc }, k + 3))
            } else {
                Some((MemSettings { retention: Some((ts[k + 1].number, Seq::empty())), ..acc }, k + 2))
            }
        } else {
            None
        }
    } else if ts[k].text == "retrieval"@ {
        if ts[k + 1].kind == TokenKind::Ident {
            Some((MemSettings { retrieval: acc.retrieval.push(ts[k + 1].text), ..acc }, k + 2))
        } else {
            None
        }
    } else if ts[k].text == "audit"@ {
        if ts[k + 1].kind == TokenKind::Ident {
            Some((MemSettings { audit: ts[k + 1].text == "required"@, ..acc }, k + 2))
        } else {
            None
        }
    } else {
        None
    }
}

/// The settings read from `k` up to the closing brace at `j`, starting from
/// `acc`: comma-separated, a trailing comma allowed.
pub open spec fn mem_settings(ts: Seq<TokView>, k: int, j: int, acc: MemSettings) -> Option<MemSettings>
    decreases j - k,
{
    if k == j {
        Some(acc)
    } else if k > j {
        None
    } else {
        match mem_setting(ts, k, acc) {
            Some((acc2, e)) => if e == j {
                Some(acc2)
            } else if k < e < j && ts[e].kind == TokenKind::Comma {
                mem_settings(ts, e + 1, j, acc2)
            } else {
                None
            },
            None => None,
        }
    }
}

/// `divine name: T from (inputs) using oracle [with confidence >= θ fallback e]`
/// from `i` to `j`.
pub open spec fn divine_derives(ts: Seq<TokView>, i: int, d: DivineStmt, j: int) -> bool {
    &&& 0 <= i
    &&& d.span == ts[i].span
    &&& ts[i].kind == TokenKind::Divine
    &&& ts[i + 1].kind == TokenKind::Ident
    &&& d.name@ == ts[i + 1].text
    &&& ts[i + 2].kind == TokenKind::Colon
    &&& exists|m: int, n: int|
        i + 3 < m < n && #[trigger] divine_joints(ts, m, n) && type_derives(ts, i + 3, d.out_ty, m) && list_derives(
            ts,
            m + 2,
            d.inputs@,
            n,
        ) && d.oracle@ == ts[n + 2].text
            && d.oracle_span == ts[n + 2].span && divine_tail(ts, n + 3, d.threshold, d.fallback, j)
}

/// The fixed tokens of a `divine` around its inputs: `from (` at `m`,
/// `) using oracle` at `n`.
pub open spec fn divine_joints(ts: Seq<TokView>, m: int, n: int) -> bool {
    &&& ts[m].kind == TokenKind::From
    &&& ts[m + 1].kind == TokenKind::LParen
    &&& ts[n].kind == TokenKind::RParen
    &&& ts[n + 1].kind == TokenKind::Using
    &&& ts[n + 2].kind == TokenKind::Ident
}

/// The optional discharge clause `with confidence >= θ fallback e` of a
/// `divine`, from `i` to `j`.
pub open spec fn divine_tail(ts: Seq<TokView>, i: int, threshold: Option<Num>, fallback: Option<Expr>, j: int) -> bool {
    match (threshold, fallback) {
        (None, None) => j == i && ts[i].kind != TokenKind::With,
        (Some(t), Some(f)) => ts[i].kind == TokenKind::With && ts[i + 1].kind == TokenKind::Confidence && ts[i
            + 2].kind == TokenKind::Ge && num_is(t, ts[i + 3]) && ts[i + 4].kind == TokenKind::Fallback && derives(
            ts,
            i + 5,
            f,
            7,
            j,
        ) && stops(7, ts[j].kind),
        _ => false,
    }
}

/// The text of a glyph literal made of literal parts only.
pub open spec fn lit_parts_text(parts: Seq<PartView>) -> Option<Seq<char>>
    decreases parts.len(),
{
    if parts.len() == 0 {
        Some(Seq::empty())
    } else {
        match (lit_parts_text(parts.drop_last()), parts.last()) {
            (Some(t), PartView::Lit(x)) => Some(t + x),
            _ => None,
        }
    }
}

/// `[: T] = value` from `i` to `j`: the annotation, when there is one, runs
/// up to the `=`.
pub open spec fn binding_derives(ts: Seq<TokView>, i: int, ty: Option<TypeExpr>, value: Expr, j: int) -> bool {
    match ty {
        None => 0 <= i && ts[i].kind == TokenKind::Eq && derives(ts, i + 1, value, 7, j) && stops(7, ts[j].kind),
        Some(t) => 0 <= i && ts[i].kind == TokenKind::Colon && exists|m: int|
            #![trigger ts[m]]
            i + 1 < m < j && type_derives(ts, i + 1, t, m) && ts[m].kind == TokenKind::Eq && derives(
                ts,
                m + 1,
                value,
                7,
                j,
            ) && stops(7, ts[j].kind),
    }
}

/// The grammar of statements: the tokens from `i` up to `j` form the
/// statement `s`. (Of `memory`, `divine` and `enact` it records the form
/// only.)
pub open spec fn stmt_derives(ts: Seq<TokView>, i: int, s: Stmt, j: int) -> bool
    decreases j - i, 0int,
{
    if !(0 <= i < j < ts.len()) {
        false
    } else {
        match ts[i].kind {
            TokenKind::Let => s matches Stmt::Let { name, ty, value, span } && span == ts[i].span && ts[i
                + 1].kind == TokenKind::Ident && name@ == ts[i + 1].text && binding_derives(ts, i + 2, ty, value, j),
            TokenKind::Var => s matches Stmt::Var { name, ty, value, span } && span == ts[i].span && ts[i
                + 1].kind == TokenKind::Ident && name@ == ts[i + 1].text && binding_derives(ts, i + 2, ty, value, j),
            TokenKind::Oracle => s matches Stmt::Summon { name, model, span } && span == ts[i].span && ts[i
                + 1].kind == TokenKind::Ident && name@ == ts[i + 1].text && ts[i + 2].kind == TokenKind::Eq
                && ts[i + 3].kind == TokenKind::Summon && ts[i + 4].kind == TokenKind::Str && j == i + 5
                && lit_parts_text(ts[i + 4].parts) == Some(model@),
            TokenKind::Speak => s matches Stmt::Speak { value, span } && span == ts[i].span && derives(
                ts,
                i + 1,
                value,
                7,
                j,
            ) && stops(7, ts[j].kind),
            TokenKind::While => s matches Stmt::While { cond, body, span } && span == ts[i].span && exists|m: int|
                #![trigger ts[m]]
                i + 1 < m < j && derives(ts, i + 1, cond, 7, m) && block_derives(ts, m, body@, j),
            TokenKind::If => s matches Stmt::If { cond, then_branch, else_branch, span } && span == ts[i].span
                && exists|m: int|
                #![trigger ts[m]]
                i + 1 < m < j && derives(ts, i + 1, cond, 7, m) && match else_branch {
                    None => block_derives(ts, m, then_branch@, j) && ts[j].kind != TokenKind::Else,
                    Some(eb) => exists|n: int|
                        #![trigger ts[n]]
                        m < n < j && block_derives(ts, m, then_branch@, n) && ts[n].kind == TokenKind::Else
                            && block_derives(ts, n + 1, eb@, j),
                },
            TokenKind::Return => s matches Stmt::Return { value, span } && span == ts[i].span && match value {
                None => j == i + 1 && (ts[i + 1].kind == TokenKind::RBrace || ts[i + 1].kind == TokenKind::Eof),
                Some(v) => derives(ts, i + 1, v, 7, j) && stops(7, ts[j].kind),
            },
            TokenKind::With => s matches Stmt::Grant { caps, body, span } && span == ts[i].span && ts[i + 1].kind
                == TokenKind::Grant && exists|m: int|
                #![trigger ts[m]]
                i + 2 < m < j && caps_derive(ts, i + 2, caps@, m) && block_derives(ts, m, body@, j),
            TokenKind::Within => s matches Stmt::Within { scope, body, span } && span == ts[i].span && ts[i
                + 1].kind == TokenKind::Ident && scope@ == ts[i + 1].text && i + 2 < j && block_derives(ts, i + 2, body@, j),
            TokenKind::Memory => s matches Stmt::MemoryDecl(d) && d.span == ts[i].span && ts[i + 1].kind
                == TokenKind::Ident && d.name@ == ts[i + 1].text && ts[i + 2].kind == TokenKind::LBrace && i + 3 <= j
                - 1 && ts[j - 1].kind == TokenKind::RBrace && mem_settings(ts, i + 3, j - 1, no_settings()) == Some(
                settings_of(d),
            ),
            TokenKind::Divine => s matches Stmt::Divine(d) && divine_derives(ts, i, d, j),
            TokenKind::Enact => s matches Stmt::Enact { subject, arms, span } && span == ts[i].span && exists|m: int|
                #![trigger ts[m]]
                i + 1 < m && m + 1 <= j - 1 && derives(ts, i + 1, subject, 7, m) && ts[m].kind == TokenKind::LBrace
                    && ts[j - 1].kind == TokenKind::RBrace && arms_derive(ts, m + 1, arms@, j - 1),
            TokenKind::Ident => if ts[i + 1].kind == TokenKind::Eq {
                s matches Stmt::Assign { name, value, span } && name@ == ts[i].text && span == ts[i].span
                    && derives(ts, i + 2, value, 7, j) && stops(7, ts[j].kind)
            } else {
                s matches Stmt::Expr(e) && derives(ts, i, e, 7, j) && stops(7, ts[j].kind)
            },
            _ => s matches Stmt::Expr(e) && derives(ts, i, e, 7, j) && stops(7, ts[j].kind),
        }
    }
}

/// Names from `i` to `j`, each followed by a comma.
pub open spec fn name_commas(ts: Seq<TokView>, i: int, ns: Seq<String>, j: int) -> bool
    decreases ns.len(),
{
    if ns.len() == 0 {
        j == i
    } else {
        i + 2 <= j && ts[j - 1].kind == TokenKind::Comma && ts[j - 2].kind == TokenKind::Ident && ns.last()@
            == ts[j - 2].text && name_commas(ts, i, ns.drop_last(), j - 2)
    }
}

/// Comma-separated names (a trailing comma allowed) from `i` up to the
/// closing token at `j`.
pub open spec fn names_derive(ts: Seq<TokView>, i: int, ns: Seq<String>, j: int) -> bool {
    ||| name_commas(ts, i, ns, j)
    ||| (ns.len() > 0 && i + 1 <= j && ts[j - 1].kind == TokenKind::Ident && ns.last()@ == ts[j - 1].text
        && name_commas(ts, i, ns.drop_last(), j - 1))
}

/// An `enact` arm `Variant[(bindings)] => { ... }` from `k` to `j`.
pub open spec fn arm_derives(ts: Seq<TokView>, k: int, a: EnactArm, j: int) -> bool
    decreases j - k, 3int,
{
    &&& 0 <= k
    &&& ts[k].kind == TokenKind::Ident
    &&& a.variant@ == ts[k].text
    &&& a.span == ts[k].span
    &&& exists|m: int|
        #![trigger ts[m]]
        k < m < j && ts[m].kind == TokenKind::FatArrow && block_derives(ts, m + 1, a.body@, j) && ((m == k + 1
            && a.bindings@.len() == 0) || (ts[k + 1].kind == TokenKind::LParen && k + 2 <= m - 1 && ts[m - 1].kind
            == TokenKind::RParen && names_derive(ts, k + 2, a.bindings@, m - 1)))
}

/// Arms from `i` to `j`, each optionally followed by a comma.
pub open spec fn arms_derive(ts: Seq<TokView>, i: int, arms: Seq<EnactArm>, j: int) -> bool
    decreases j - i, 4int,
{
    if arms.len() == 0 {
        j == i
    } else {
        exists|k: int|
            #![trigger ts[k]]
            i <= k < j && arms_derive(ts, i, arms.drop_last(), k) && (arm_derives(ts, k, arms.last(), j) || (
            ts[j - 1].kind == TokenKind::Comma && arm_derives(ts, k, arms.last(), j - 1)))
    }
}

/// `{ stmt* }` from `i` to `j`, statements optionally separated by commas.
pub open spec fn block_derives(ts: Seq<TokView>, i: int, ss: Seq<Stmt>, j: int) -> bool
    decreases j - i, 1int,
{
    &&& 0 <= i
    &&& i + 1 < j
    &&& ts[i].kind == TokenKind::LBrace
    &&& ts[j - 1].kind == TokenKind::RBrace
    &&& stmts_derive(ts, i + 1, ss, j - 1)
}

/// Statements from `i` to `j`, each optionally followed by a comma.
pub open spec fn stmts_derive(ts: Seq<TokView>, i: int, ss: Seq<Stmt>, j: int) -> bool
    decreases j - i, 2int,
{
    if ss.len() == 0 {
        j == i
    } else {
        exists|k: int|
            #![trigger ts[k]]
            i <= k < j && stmts_derive(ts, i, ss.drop_last(), k) && (stmt_derives(ts, k, ss.last(), j) || (
            ts[j - 1].kind == TokenKind::Comma && stmt_derives(ts, k, ss.last(), j - 1)))
    }
}

/// A parameter `name` or `name: T` from `k` to `j`.
pub open spec fn param_derives(ts: Seq<TokView>, k: int, p: Param, j: int) -> bool {
    &&& 0 <= k
    &&& ts[k].kind == TokenKind::Ident
    &&& p.name@ == ts[k].text
    &&& p.span == ts[k].span
    &&& match p.ty {
        None => j == k + 1 && ts[k + 1].kind != TokenKind::Colon,
        Some(t) => ts[k + 1].kind == TokenKind::Colon && k + 2 < j && type_derives(ts, k + 2, t, j),
    }
}

/// Parameters from `i` to `j`, each followed by a comma.
pub open spec fn param_commas(ts: Seq<TokView>, i: int, ps: Seq<Param>, j: int) -> bool
    decreases ps.len(),
{
    if ps.len() == 0 {
        j == i
    } else {
        exists|k: int|
            #![trigger ts[k]]
            i <= k < j - 1 && param_commas(ts, i, ps.drop_last(), k) && ts[j - 1].kind == TokenKind::Comma
                && param_derives(ts, k, ps.last(), j - 1)
    }
}

/// Comma-separated parameters (a trailing comma allowed) from `i` up to the
/// closing token at `j`.
pub open spec fn param_list(ts: Seq<TokView>, i: int, ps: Seq<Param>, j: int) -> bool {
    ||| param_commas(ts, i, ps, j)
    ||| (ps.len() > 0 && exists|k: int|
        #![trigger ts[k]]
        i <= k < j && param_commas(ts, i, ps.drop_last(), k) && param_derives(ts, k, ps.last(), j))
}

/// `( params )` from `i` to `j`.
pub open spec fn params_derive(ts: Seq<TokView>, i: int, ps: Seq<Param>, j: int) -> bool {
    &&& 0 <= i
    &&& i + 1 < j
    &&& ts[i].kind == TokenKind::LParen
    &&& ts[j - 1].kind == TokenKind::RParen
    &&& param_list(ts, i + 1, ps, j - 1)
}

/// An optional `: T` from `a` to `b`.
pub open spec fn opt_type_derives(ts: Seq<TokView>, a: int, t: Option<TypeExpr>, b: int) -> bool {
    match t {
        None => b == a && ts[a].kind != TokenKind::Colon,
        Some(ty) => ts[a].kind == TokenKind::Colon && a + 1 < b && type_derives(ts, a + 1, ty, b),
    }
}

/// An optional `requires caps` from `b` to `c`.
pub open spec fn requires_derive(ts: Seq<TokView>, b: int, caps: Seq<Capability>, c: int) -> bool {
    if caps.len() == 0 {
        c == b && ts[b].kind != TokenKind::Requires
    } else {
        ts[b].kind == TokenKind::Requires && caps_derive(ts, b + 1, caps, c)
    }
}

/// `define name(params) [: T] [requires caps] { body }` from `i` to `j`; `a`,
/// `b` and `c` are where the return type, the requirements and the body
/// begin.
pub open spec fn define_parts(ts: Seq<TokView>, i: int, d: DefineDecl, a: int, b: int, c: int, j: int) -> bool {
    &&& 0 <= i
    &&& ts[i].kind == TokenKind::Define
    &&& d.span == ts[i].span
    &&& ts[i + 1].kind == TokenKind::Ident
    &&& d.name@ == ts[i + 1].text
    &&& params_derive(ts, i + 2, d.params@, a)
    &&& opt_type_derives(ts, a, d.ret, b)
    &&& requires_derive(ts, b, d.requires@, c)
    &&& block_derives(ts, c, d.body@, j)
}

/// A `define` from `i` to `j`.
pub open spec fn define_derives(ts: Seq<TokView>, i: int, d: DefineDecl, j: int) -> bool {
    exists|a: int, b: int, c: int| #[trigger] define_parts(ts, i, d, a, b, c, j)
}

/// Capabilities from `i` to `j`, each followed by a comma.
pub open spec fn cap_commas(ts: Seq<TokView>, i: int, caps: Seq<Capability>, j: int) -> bool
    decreases caps.len(),
{
    if caps.len() == 0 {
        j == i
    } else {
        exists|k: int|
            #![trigger ts[k]]
            i <= k < j - 1 && cap_commas(ts, i, caps.drop_last(), k) && ts[j - 1].kind == TokenKind::Comma
                && cap_derives(ts, k, caps.last(), j - 1)
    }
}

/// Comma-separated capabilities (a trailing comma allowed) from `i` up to
/// the closing token at `j`.
pub open spec fn cap_list(ts: Seq<TokView>, i: int, caps: Seq<Capability>, j: int) -> bool {
    ||| cap_commas(ts, i, caps, j)
    ||| (caps.len() > 0 && exists|k: int|
        #![trigger ts[k]]
        i <= k < j && cap_commas(ts, i, caps.drop_last(), k) && cap_derives(ts, k, caps.last(), j))
}

/// `familiar name(params) permits { caps } { body }` from `i` to `j`; `a` is
/// where `permits` stands and `c` where the body begins.
pub open spec fn familiar_parts(ts: Seq<TokView>, i: int, f: FamiliarDecl, a: int, c: int, j: int) -> bool {
    &&& 0 <= i
    &&& ts[i].kind == TokenKind::Familiar
    &&& f.span == ts[i].span
    &&& ts[i + 1].kind == TokenKind::Ident
    &&& f.name@ == ts[i + 1].text
    &&& params_derive(ts, i + 2, f.params@, a)
    &&& ts[a].kind == TokenKind::Permits
    &&& ts[a + 1].kind == TokenKind::LBrace
    &&& a + 2 <= c - 1
    &&& ts[c - 1].kind == TokenKind::RBrace
    &&& cap_list(ts, a + 2, f.permits@, c - 1)
    &&& block_derives(ts, c, f.body@, j)
}

/// A `familiar` from `i` to `j`.
pub open spec fn familiar_derives(ts: Seq<TokView>, i: int, f: FamiliarDecl, j: int) -> bool {
    exists|a: int, c: int| #[trigger] familiar_parts(ts, i, f, a, c, j)
}

/// The grammar of top-level items: `it` is formed by the tokens from `i` to
/// `j`. (Of a `define`, `type` or `familiar` it records the keyword, the
/// name and the position.)
pub open spec fn item_derives(ts: Seq<TokView>, i: int, it: Item, j: int) -> bool {
    &&& 0 <= i < j < ts.len()
    &&& match it {
        Item::Define(d) => define_derives(ts, i, d, j),
        Item::Type(t) => ts[i].kind == TokenKind::Type && t.name@ == ts[i + 1].text && t.span == ts[i].span
            && ts[i + 1].kind == TokenKind::Ident && ts[i + 2].kind == TokenKind::Eq && type_derives(ts, i + 3, t.ty, j),
        Item::Familiar(f) => familiar_derives(ts, i, f, j),
        Item::Stmt(s) => ts[i].kind != TokenKind::Define && ts[i].kind != TokenKind::Type && ts[i].kind
            != TokenKind::Familiar && stmt_derives(ts, i, s, j),
    }
}

/// Items one after another from `i` to `j`.
pub open spec fn items_derive(ts: Seq<TokView>, i: int, items: Seq<Item>, j: int) -> bool
    decreases items.len(),
{
    if items.len() == 0 {
        j == i
    } else {
        exists|k: int|
            #![trigger ts[k]]
            i <= k < j && items_derive(ts, i, items.drop_last(), k) && item_derives(ts, k, items.last(), j)
    }
}

/// The grammar of programs: the items of `p` are formed by all the tokens
/// before the final end of input.
pub open spec fn program_derives(ts: Seq<TokView>, items: Seq<Item>) -> bool {
    &&& ts.len() > 0
    &&& ts.last().kind == TokenKind::Eof
    &&& items_derive(ts, 0, items, ts.len() - 1)
}

/// The form of statement that a statement's first two tokens announce.
pub open spec fn stmt_form(s: Stmt, k: TokenKind, k2: TokenKind) -> bool {
    match k {
        TokenKind::Let => s is Let,
        TokenKind::Var => s is Var,
        TokenKind::Oracle => s is Summon,
        TokenKind::Speak => s is Speak,
        TokenKind::While => s is While,
        TokenKind::If => s is If,
        TokenKind::Return => s is Return,
        TokenKind::With => s is Grant,
        TokenKind::Within => s is Within,
        TokenKind::Memory => s is MemoryDecl,
        TokenKind::Divine => s is Divine,
        TokenKind::Enact => s is Enact,
        TokenKind::Ident => if k2 == TokenKind::Eq {
            s is Assign
        } else {
            s is Expr
        },
        _ => s is Expr,
    }
}

/// What a statement records of the tokens it starts with (`i` is its first
/// token): the names it binds, whether a binding is annotated, whether a
/// `return` carries a value, and its position.
pub open spec fn stmt_details(s: Stmt, ts: Seq<TokView>, i: int) -> bool {
    match s {
        Stmt::Let { name, ty, span, .. } => name@ == ts[i + 1].text && (ty is Some <==> ts[i + 2].kind
            == TokenKind::Colon) && span == ts[i].span,
        Stmt::Var { name, ty, span, .. } => name@ == ts[i + 1].text && (ty is Some <==> ts[i + 2].kind
            == TokenKind::Colon) && span == ts[i].span,
        Stmt::Assign { name, span, .. } => name@ == ts[i].text && span == ts[i].span,
        Stmt::Summon { name, span, .. } => name@ == ts[i + 1].text && span == ts[i].span,
        Stmt::Within { scope, span, .. } => scope@ == ts[i + 1].text && span == ts[i].span,
        Stmt::Return { value, span } => (value is None <==> (ts[i + 1].kind == TokenKind::RBrace || ts[i
            + 1].kind == TokenKind::Eof)) && span == ts[i].span,
        Stmt::Speak { span, .. } => span == ts[i].span,
        Stmt::While { span, .. } => span == ts[i].span,
        Stmt::If { span, .. } => span == ts[i].span,
        Stmt::Grant { span, .. } => span == ts[i].span,
        _ => true,
    }
}

/// The parser's cursor over a token stream that ends in `Eof`. `budget`
/// bounds the nesting of `${...}` interpolations (each is parsed by a nested
/// parser with a smaller budget).
pub struct Parser {
    tokens: Vec<Token>,
    pos: usize,
    budget: usize,
}

impl Parser {
    pub closed spec fn wf(&self) -> bool {
        &&& self.tokens.len() >= 1
        &&& self.tokens@.last().kind == TokenKind::Eof
        &&& self.pos < self.tokens.len()
    }

    /// `self` is a later state of the same parse as `prev`.
    pub closed spec fn stays(&self, prev: Parser) -> bool {
        &&& self.wf()
        &&& self.tokens@ == prev.tokens@
        &&& self.budget == prev.budget
        &&& self.pos >= prev.pos
    }

    /// `self` is a later state of `prev` that consumed at least one token.
    pub closed spec fn moved(&self, prev: Parser) -> bool {
        self.pos > prev.pos
    }

    pub closed spec fn remaining(&self) -> nat {
        (self.tokens.len() - self.pos) as nat
    }

    pub closed spec fn cur_kind(&self) -> TokenKind {
        self.tokens@[self.pos as int].kind
    }

    pub closed spec fn spec_budget(&self) -> nat {
        self.budget as nat
    }

    /// The token stream, by view.
    pub closed spec fn toks(&self) -> Seq<TokView> {
        toks_view(self.tokens@)
    }

    /// The index of the current token.
    pub closed spec fn at(&self) -> int {
        self.pos as int
    }

    /// The current token is a literal that nothing after it extends.
    pub closed spec fn lone_literal(&self) -> bool {
        lone_literal_at(self.toks(), self.pos as int)
    }

    /// `r` is the lone literal at `self`'s position, and `fin` is just past it.
    pub closed spec fn literal_parsed(&self, r: Result<Expr, Diagnostic>, fin: Parser) -> bool {
        &&& r is Ok
        &&& literal_expr_is(r->Ok_0, self.toks()[self.pos as int])
        &&& fin.pos == self.pos + 1
    }

    pub fn new(tokens: Vec<Token>, budget: usize) -> (p: Parser)
        requires
            tokens.len() >= 1,
            tokens@.last().kind == TokenKind::Eof,
        ensures
            p.wf(),
            p.spec_budget() == budget,
            p.cur_kind() == tokens@[0].kind,
            p.toks() == toks_view(tokens@),
            p.at() == 0,
    {
        Parser { tokens, pos: 0, budget }
    }

    fn peek_kind(&self) -> (k: TokenKind)
        requires
            self.wf(),
        ensures
            k == self.cur_kind(),
    {
        self.tokens[self.pos].kind
    }

    fn peek_kind2(&self) -> (k: TokenKind)
        requires
            self.wf(),
        ensures
            self.pos + 1 < self.tokens.len() ==> k == self.tokens@[self.pos + 1].kind,
    {
        if self.pos + 1 < self.tokens.len() {
            self.tokens[self.pos + 1].kind
        } else {
            TokenKind::Eof
        }
    }

    fn span(&self) -> (s: Span)
        requires
            self.wf(),
        ensures
            s == self.tokens@[self.pos as int].span,
    {
        self.tokens[self.pos].span
    }

    /// Consumes the current token (the final `Eof` is never consumed).
    fn bump(&mut self)
        requires
            old(self).wf(),
        ensures
            final(self).stays(*old(self)),
            old(self).cur_kind() != TokenKind::Eof ==> final(self).moved(*old(self)),
            old(self).cur_kind() != TokenKind::Eof ==> final(self).pos == old(self).pos + 1,
    {
        if self.pos < self.tokens.len() - 1 {
            self.pos = self.pos + 1;
        }
    }

    fn check(&self, k: TokenKind) -> (r: bool)
        requires
            self.wf(),
        ensures
            r == (self.cur_kind() == k),
    {
        self.tokens[self.pos].kind == k
    }

    fn eat(&mut self, k: TokenKind) -> (r: bool)
        requires
            old(self).wf(),
            k != TokenKind::Eof,
        ensures
            final(self).stays(*old(self)),
            r == (old(self).cur_kind() == k),
            r ==> final(self).moved(*old(self)),
            r ==> final(self).pos == old(self).pos + 1,
            !r ==> final(self).pos == old(self).pos,
    {
        if self.check(k) {
            self.bump();
            true
        } else {
            false
        }
    }

    /// `expected <what>, found <current token>`.
    fn expected(&self, what: &str) -> (d: Diagnostic)
        requires
            self.wf(),
        ensures
            d.stage == Stage::Parse,
    {
        let mut m = owned("expected ");
        push_str(&mut m, what);
        push_str(&mut m, ", found ");
        let found = self.describe();
        push_str(&mut m, found.as_str());
        Diagnostic::parse(m, self.span())
    }

    /// How the current token is named in a syntax error.
    fn describe(&self) -> (r: String)
        requires
            self.wf(),
        ensures
            r@ == token_description(self.tokens@[self.pos as int]),
    {
        let t = &self.tokens[self.pos];
        match t.kind {
            TokenKind::Eof => owned("end of input"),
            TokenKind::Ident => {
                let mut s = owned("identifier `");
                push_str(&mut s, t.text.as_str());
                push_str(&mut s, "`");
                s
            },
            TokenKind::Number => {
                let mut s = owned("number `");
                let n = t.number.text();
                push_str(&mut s, n.as_str());
                push_str(&mut s, "`");
                s
            },
            TokenKind::Str => owned("a glyph literal"),
            k => {
                let mut s = owned("`");
                push_str(&mut s, kind_name(k));
                push_str(&mut s, "`");
                s
            },
        }
    }

    fn expect(&mut self, k: TokenKind, what: &str) -> (r: Result<(), Diagnostic>)
        requires
            old(self).wf(),
            k != TokenKind::Eof,
        ensures
            final(self).stays(*old(self)),
            r is Ok ==> final(self).moved(*old(self)),
            syntax_err(r),
            r is Ok <==> old(self).cur_kind() == k,
            r is Ok ==> final(self).pos == old(self).pos + 1,
    {
        if self.check(k) {
            self.bump();
            Ok(())
        } else {
            Err(self.expected(what))
        }
    }

    fn expect_ident(&mut self, what: &str) -> (r: Result<(String, Span), Diagnostic>)
        requires
            old(self).wf(),
        ensures
            final(self).stays(*old(self)),
            r is Ok ==> final(self).moved(*old(self)),
            syntax_err(r),
            r matches Ok((n, _)) ==> n@ == old(self).tokens@[old(self).pos as int].text@,
            r matches Ok((_, sp)) ==> sp == old(self).tokens@[old(self).pos as int].span,
            r is Ok <==> old(self).cur_kind() == TokenKind::Ident,
            r is Ok ==> final(self).pos == old(self).pos + 1,
    {
        let span = self.span();
        if self.check(TokenKind::Ident) {
            let name = self.tokens[self.pos].text.clone();
            self.bump();
            Ok((name, span))
        } else {
            Err(self.expected(what))
        }
    }

    fn number(&mut self, what: &str) -> (r: Result<Num, Diagnostic>)
        requires
            old(self).wf(),
        ensures
            final(self).stays(*old(self)),
            r is Ok ==> final(self).moved(*old(self)),
            syntax_err(r),
            r matches Ok(n) ==> num_is(n, old(self).toks()[old(self).at()]) && final(self).at() == old(self).at()
                + 1,
    {
        if self.check(TokenKind::Number) {
            let n = self.tokens[self.pos].number;
            self.bump();
            Ok(n)
        } else {
            Err(self.expected(what))
        }
    }

    // ---- top level ----

    pub fn parse_program(&mut self) -> (r: Result<Program, Diagnostic>)
        requires
            old(self).wf(),
        ensures
            final(self).stays(*old(self)),
            syntax_err(r),
            r is Ok ==> final(self).cur_kind() == TokenKind::Eof,
            old(self).cur_kind() == TokenKind::Eof ==> r is Ok,
            r matches Ok(p) ==> (p.items@.len() == 0 <==> old(self).cur_kind() == TokenKind::Eof),
            old(self).cur_kind() != TokenKind::Eof && !starts_item(old(self).cur_kind()) ==> r is Err,
            r matches Ok(p) ==> items_derive(old(self).toks(), old(self).at(), p.items@, final(self).at()),
            plain_program_from(old(self).toks(), old(self).at()) ==> (r matches Ok(p) && plain_items(
                p.items@,
                old(self).toks(),
                plain_starts(old(self).toks(), old(self).at()),
            )),
    {
        let ghost ts = old(self).toks();
        let ghost start = old(self).at();
        let ghost mut done: Seq<int> = Seq::empty();
        let mut items: Vec<Item> = Vec::new();
        while !self.check(TokenKind::Eof)
            invariant
                self.stays(*old(self)),
                ts == old(self).toks(),
                start == old(self).at(),
                items@.len() == 0 <==> self.pos == old(self).pos,
                old(self).cur_kind() == TokenKind::Eof ==> self.pos == old(self).pos,
                self.pos != old(self).pos ==> starts_item(old(self).cur_kind()),
                items_derive(ts, start, items@, self.at()),
                plain_program_from(ts, start) ==> (plain_program_from(ts, self.at()) && plain_starts(ts, start)
                    == done + plain_starts(ts, self.at()) && plain_items(items@, ts, done)),
            decreases self.remaining(),
        {
            let ghost i0 = self.at();
            let it = self.item()?;
            proof {
                if plain_program_from(ts, start) {
                    let j = plain_stmt_end(ts, i0)->Some_0;
                    assert(plain_starts(ts, i0) == seq![i0] + plain_starts(ts, j));
                    assert(done.push(i0) + plain_starts(ts, j) =~= done + (seq![i0] + plain_starts(ts, j)));
                }
            }
            let ghost prev = items@;
            items.push(it);
            proof {
                assert(items@.drop_last() =~= prev);
                assert(ts[i0] == ts[i0]);
                if plain_program_from(ts, start) {
                    assert forall|k: int| 0 <= k < items@.len() implies (#[trigger] items@[k] matches Item::Stmt(
                        s,
                    ) && plain_stmt_is(s, ts, done.push(i0)[k])) by {
                        if k < prev.len() {
                            assert(items@[k] == prev[k]);
                        }
                    }
                }
                done = done.push(i0);
            }
        }
        proof {
            if plain_program_from(ts, start) {
                assert(done + plain_starts(ts, self.at()) =~= done);
            }
        }
        Ok(Program { items })
    }

    fn item(&mut self) -> (r: Result<Item, Diagnostic>)
        requires
            old(self).wf(),
        ensures
            final(self).stays(*old(self)),
            r is Ok ==> final(self).moved(*old(self)),
            syntax_err(r),
            r is Ok ==> starts_item(old(self).cur_kind()),
            r matches Ok(it) ==> item_derives(old(self).toks(), old(self).at(), it, final(self).at()),
            plain_stmt_end(old(self).toks(), old(self).at()) matches Some(j) ==> (r matches Ok(Item::Stmt(s))
                && plain_stmt_is(s, old(self).toks(), old(self).at()) && final(self).at() == j),
        decreases old(self).budget, old(self).remaining(), 40int,
    {
        match self.peek_kind() {
            TokenKind::Define => Ok(Item::Define(self.define_decl()?)),
            TokenKind::Type => Ok(Item::Type(self.type_decl()?)),
            TokenKind::Familiar => Ok(Item::Familiar(self.familiar_decl()?)),
            _ => Ok(Item::Stmt(self.stmt()?)),
        }
    }

    /// `( name[: T], ... )`
    fn params(&mut self) -> (r: Result<Vec<Param>, Diagnostic>)
        requires
            old(self).wf(),
        ensures
            final(self).stays(*old(self)),
            r is Ok ==> final(self).moved(*old(self)),
            syntax_err(r),
            r matches Ok(ps) ==> params_derive(old(self).toks(), old(self).at(), ps@, final(self).at()),
        decreases old(self).budget, old(self).remaining(), 30int,
    {
        let ghost ts = old(self).toks();
        let ghost start = old(self).at();
        self.expect(TokenKind::LParen, "`(`")?;
        let mut params: Vec<Param> = Vec::new();
        while !self.check(TokenKind::RParen)
            invariant_except_break
                param_commas(ts, start + 1, params@, self.at()),
            invariant
                self.stays(*old(self)),
                self.moved(*old(self)),
                ts == old(self).toks(),
                start == old(self).at(),
            ensures
                param_list(ts, start + 1, params@, self.at()),
            decreases self.remaining(),
        {
            let ghost k = self.at();
            let ghost prev = params@;
            let (pname, pspan) = self.expect_ident("a parameter name")?;
            let ty = if self.eat(TokenKind::Colon) {
                Some(self.type_expr()?)
            } else {
                None
            };
            let ghost p = self.at();
            params.push(Param { name: pname, ty, span: pspan });
            proof {
                assert(params@.drop_last() =~= prev);
                assert(ts[k] == ts[k]);
                assert(param_derives(ts, k, params@.last(), p));
            }
            if !self.eat(TokenKind::Comma) {
                break;
            }
        }
        self.expect(TokenKind::RParen, "`)`")?;
        Ok(params)
    }

    fn define_decl(&mut self) -> (r: Result<DefineDecl, Diagnostic>)
        requires
            old(self).wf(),
        ensures
            final(self).stays(*old(self)),
            r is Ok ==> final(self).moved(*old(self)),
            syntax_err(r),
            r matches Ok(d) ==> old(self).cur_kind() == TokenKind::Define && d.name@ == old(self).toks()[old(self).at()
                + 1].text && d.span == old(self).toks()[old(self).at()].span,
            r matches Ok(d) ==> define_derives(old(self).toks(), old(self).at(), d, final(self).at()),
        decreases old(self).budget, old(self).remaining(), 35int,
    {
        let ghost ts = old(self).toks();
        let span = self.span();
        self.expect(TokenKind::Define, "`define`")?;
        let (name, _) = self.expect_ident("a function name")?;
        let params = self.params()?;
        let ghost a = self.at();
        let ret = if self.eat(TokenKind::Colon) {
            Some(self.type_expr()?)
        } else {
            None
        };
        let ghost b = self.at();
        let required = if self.eat(TokenKind::Requires) {
            self.capability_list()?
        } else {
            Vec::new()
        };
        let ghost c = self.at();
        let body = self.block()?;
        let d = DefineDecl { name, params, ret, requires: required, body, span };
        proof {
            assert(define_parts(ts, old(self).at(), d, a, b, c, self.at()));
        }
        Ok(d)
    }

    /// `familiar name(params) permits { caps } { body }`
    fn familiar_decl(&mut self) -> (r: Result<FamiliarDecl, Diagnostic>)
        requires
            old(self).wf(),
        ensures
            final(self).stays(*old(self)),
            r is Ok ==> final(self).moved(*old(self)),
            syntax_err(r),
            r matches Ok(d) ==> old(self).cur_kind() == TokenKind::Familiar && d.name@ == old(self).toks()[old(self).at()
                + 1].text && d.span == old(self).toks()[old(self).at()].span,
            r matches Ok(d) ==> familiar_derives(old(self).toks(), old(self).at(), d, final(self).at()),
        decreases old(self).budget, old(self).remaining(), 35int,
    {
        let ghost ts = old(self).toks();
        let span = self.span();
        self.expect(TokenKind::Familiar, "`familiar`")?;
        let (name, _) = self.expect_ident("a familiar name")?;
        let params = self.params()?;
        let ghost a = self.at();
        self.expect(TokenKind::Permits, "`permits` (the familiar's capability boundary)")?;
        self.expect(TokenKind::LBrace, "`{`")?;
        let mut permits: Vec<Capability> = Vec::new();
        while !self.check(TokenKind::RBrace)
            invariant_except_break
                cap_commas(ts, a + 2, permits@, self.at()),
            invariant
                self.stays(*old(self)),
                self.moved(*old(self)),
                ts == old(self).toks(),
                a + 2 <= self.at(),
            ensures
                cap_list(ts, a + 2, permits@, self.at()),
            decreases self.remaining(),
        {
            let ghost k = self.at();
            let ghost prev = permits@;
            let c = self.capability()?;
            permits.push(c);
            proof {
                assert(permits@.drop_last() =~= prev);
                assert(ts[k] == ts[k]);
            }
            if !self.eat(TokenKind::Comma) {
                break;
            }
        }
        self.expect(TokenKind::RBrace, "`}` to close the permits")?;
        let ghost c = self.at();
        let body = self.block()?;
        let f = FamiliarDecl { name, params, permits, body, span };
        proof {
            assert(familiar_parts(ts, old(self).at(), f, a, c, self.at()));
        }
        Ok(f)
    }

    /// One or more comma-separated capabilities.
    fn capability_list(&mut self) -> (r: Result<Vec<Capability>, Diagnostic>)
        requires
            old(self).wf(),
        ensures
            final(self).stays(*old(self)),
            r is Ok ==> final(self).moved(*old(self)),
            syntax_err(r),
            r matches Ok(caps) ==> caps_derive(old(self).toks(), old(self).at(), caps@, final(self).at()),
    {
        let ghost ts = old(self).toks();
        let ghost start = old(self).at();
        let mut caps: Vec<Capability> = Vec::new();
        let first = self.capability()?;
        caps.push(first);
        while self.check(TokenKind::Comma)
            invariant
                self.stays(*old(self)),
                self.moved(*old(self)),
                ts == old(self).toks(),
                start == old(self).at(),
                caps_derive(ts, start, caps@, self.at()),
            decreases self.remaining(),
        {
            let ghost k = self.at();
            let ghost prev = caps@;
            self.bump();
            let c = self.capability()?;
            caps.push(c);
            proof {
                assert(caps@.drop_last() =~= prev);
                assert(ts[k] == ts[k]);
                assert(caps@.len() > 1);
                assert(cap_derives(ts, k + 1, caps@.last(), self.at()));
                assert(caps_derive(ts, start, caps@.drop_last(), k));
                assert(ts[k].kind == TokenKind::Comma);
                assert(start < k < self.at());
                assert(caps_derive(ts, start, caps@, self.at()));
            }
        }
        Ok(caps)
    }

    /// A capability: `kind`, `kind(param)` or `kind param`.
    fn capability(&mut self) -> (r: Result<Capability, Diagnostic>)
        requires
            old(self).wf(),
        ensures
            final(self).stays(*old(self)),
            r is Ok ==> final(self).moved(*old(self)),
            syntax_err(r),
            r matches Ok(c) ==> cap_derives(old(self).toks(), old(self).at(), c, final(self).at()),
    {
        let (kind, span) = self.expect_ident("a capability kind")?;
        let param = if self.eat(TokenKind::LParen) {
            let (p, _) = self.expect_ident("a capability parameter")?;
            self.expect(TokenKind::RParen, "`)` to close the capability parameter")?;
            Some(p)
        } else if self.check(TokenKind::Ident) {
            let (p, _) = self.expect_ident("a capability parameter")?;
            Some(p)
        } else {
            None
        };
        Ok(Capability { kind, param, span })
    }

    fn type_decl(&mut self) -> (r: Result<TypeDecl, Diagnostic>)
        requires
            old(self).wf(),
        ensures
            final(self).stays(*old(self)),
            r is Ok ==> final(self).moved(*old(self)),
            syntax_err(r),
            r matches Ok(d) ==> old(self).cur_kind() == TokenKind::Type && d.name@ == old(self).toks()[old(self).at()
                + 1].text && d.span == old(self).toks()[old(self).at()].span,
            r matches Ok(d) ==> old(self).toks()[old(self).at() + 1].kind == TokenKind::Ident && old(self).toks()[old(
                self).at() + 2].kind == TokenKind::Eq && type_derives(old(self).toks(), old(self).at() + 3, d.ty, final(
                self).at()),
        decreases old(self).budget, old(self).remaining(), 35int,
    {
        let span = self.span();
        self.expect(TokenKind::Type, "`type`")?;
        let (name, _) = self.expect_ident("a type name")?;
        self.expect(TokenKind::Eq, "`=`")?;
        let ty = self.type_expr()?;
        Ok(TypeDecl { name, ty, span })
    }

    /// `name: T` pairs up to `close`, separated by optional commas.
    fn typed_fields(&mut self, close: TokenKind) -> (r: Result<Vec<(String, TypeExpr)>, Diagnostic>)
        requires
            old(self).wf(),
            close != TokenKind::Eof,
        ensures
            final(self).stays(*old(self)),
            r is Ok ==> final(self).moved(*old(self)),
            syntax_err(r),
            r matches Ok(fs) ==> old(self).at() < final(self).at() && old(self).toks()[final(self).at() - 1].kind
                == close && typed_fields_derive(old(self).toks(), old(self).at(), fs@, final(self).at() - 1),
        decreases old(self).budget, old(self).remaining(), 14int,
    {
        let ghost ts = old(self).toks();
        let ghost start = old(self).at();
        let mut fields: Vec<(String, TypeExpr)> = Vec::new();
        while !self.check(close)
            invariant
                self.stays(*old(self)),
                close != TokenKind::Eof,
                ts == old(self).toks(),
                start == old(self).at(),
                typed_fields_derive(ts, start, fields@, self.at()),
            decreases self.remaining(),
        {
            let ghost k = self.at();
            let ghost prev = fields@;
            let (fname, _) = self.expect_ident("a field name")?;
            self.expect(TokenKind::Colon, "`:`")?;
            let fty = self.type_expr()?;
            let ghost p = self.at();
            fields.push((fname, fty));
            self.eat(TokenKind::Comma);
            proof {
                assert(fields@.drop_last() =~= prev);
                assert(ts[k] == ts[k]);
                assert(field_type_derives(ts, k, fields@.last(), p));
            }
        }
        self.bump();
        Ok(fields)
    }

    fn type_expr(&mut self) -> (r: Result<TypeExpr, Diagnostic>)
        requires
            old(self).wf(),
        ensures
            final(self).stays(*old(self)),
            r is Ok ==> final(self).moved(*old(self)),
            syntax_err(r),
            r matches Ok(t) ==> type_derives(old(self).toks(), old(self).at(), t, final(self).at()),
        decreases old(self).budget, old(self).remaining(), 15int,
    {
        let span = self.span();
        match self.peek_kind() {
            TokenKind::LBrace => {
                self.bump();
                let fields = self.typed_fields(TokenKind::RBrace)?;
                Ok(TypeExpr::Record(fields, span))
            },
            TokenKind::OneOf => {
                self.bump();
                self.expect(TokenKind::LBrace, "`{`")?;
                let ghost ts = old(self).toks();
                let ghost start = old(self).at();
                let mut variants: Vec<VariantDef> = Vec::new();
                while !self.check(TokenKind::RBrace)
                    invariant
                        self.stays(*old(self)),
                        self.moved(*old(self)),
                        ts == old(self).toks(),
                        start == old(self).at(),
                        ts[start + 1].kind == TokenKind::LBrace,
                        start + 2 <= self.at(),
                        variants_derive(ts, start + 2, variants@, self.at()),
                    decreases self.remaining(),
                {
                    let ghost k = self.at();
                    let ghost prev = variants@;
                    let (vname, vspan) = self.expect_ident("a variant name")?;
                    let vfields = if self.eat(TokenKind::LParen) {
                        self.typed_fields(TokenKind::RParen)?
                    } else {
                        Vec::new()
                    };
                    let ghost p = self.at();
                    variants.push(VariantDef { name: vname, fields: vfields, span: vspan });
                    self.eat(TokenKind::Comma);
                    proof {
                        assert(variants@.drop_last() =~= prev);
                        assert(ts[k] == ts[k]);
                        assert(variant_derives(ts, k, variants@.last(), p));
                    }
                }
                self.bump();
                Ok(TypeExpr::OneOf(variants, span))
            },
            TokenKind::Ident => {
                let base = self.tokens[self.pos].text.clone();
                let is_list = str_eq(base.as_str(), "list") && self.peek_kind2() == TokenKind::Ident
                    && self.next_text_is("of");
                self.bump();
                if is_list {
                    self.bump();
                    if self.check(TokenKind::Number) {
                        let lo = self.number("a lower length bound")?;
                        self.expect(TokenKind::DotDot, "`..`")?;
                        let hi = self.number("an upper length bound")?;
                        let (of, _) = self.expect_ident("`of` then the element type")?;
                        if !str_eq(of.as_str(), "of") {
                            return Err(Diagnostic::parse(owned("expected `of` then the element type"), span));
                        }
                        let elem = self.type_expr()?;
                        Ok(TypeExpr::List { elem: Box::new(elem), lo: Some(lo), hi: Some(hi), span })
                    } else {
                        let elem = self.type_expr()?;
                        Ok(TypeExpr::List { elem: Box::new(elem), lo: None, hi: None, span })
                    }
                } else if self.eat(TokenKind::In) {
                    let lo = self.number("a lower bound")?;
                    self.expect(TokenKind::DotDot, "`..`")?;
                    let hi = self.number("an upper bound")?;
                    Ok(TypeExpr::Refined { base, lo, hi, span })
                } else {
                    Ok(TypeExpr::Named(base, span))
                }
            },
            TokenKind::Oracle => {
                self.bump();
                Ok(TypeExpr::Named(owned("oracle"), span))
            },
            _ => {
                let mut m = owned("expected a type, found ");
                let found = self.describe();
                push_str(&mut m, found.as_str());
                Err(Diagnostic::parse(m, span))
            },
        }
    }

    /// Is the token after the current one the identifier `word`?
    fn next_text_is(&self, word: &str) -> (r: bool)
        requires
            self.wf(),
        ensures
            r == (self.pos + 1 < self.tokens.len() && self.tokens@[self.pos + 1].text@ == word@),
    {
        if self.pos + 1 < self.tokens.len() {
            str_eq(self.tokens[self.pos + 1].text.as_str(), word)
        } else {
            false
        }
    }

    /// `{ stmt* }`
    fn block(&mut self) -> (r: Result<Vec<Stmt>, Diagnostic>)
        requires
            old(self).wf(),
        ensures
            final(self).stays(*old(self)),
            r is Ok ==> final(self).moved(*old(self)),
            syntax_err(r),
            r matches Ok(ss) ==> block_derives(old(self).toks(), old(self).at(), ss@, final(self).at()),
        decreases old(self).budget, old(self).remaining(), 25int,
    {
        let ghost ts = old(self).toks();
        let ghost start = old(self).at();
        self.expect(TokenKind::LBrace, "`{`")?;
        let mut stmts: Vec<Stmt> = Vec::new();
        while !self.check(TokenKind::RBrace) && !self.check(TokenKind::Eof)
            invariant
                self.stays(*old(self)),
                self.moved(*old(self)),
                ts == old(self).toks(),
                start == old(self).at(),
                ts[start].kind == TokenKind::LBrace,
                stmts_derive(ts, start + 1, stmts@, self.at()),
            decreases self.remaining(),
        {
            let ghost k = self.at();
            let ghost prev = stmts@;
            let s = self.stmt()?;
            stmts.push(s);
            self.eat(TokenKind::Comma);
            proof {
                assert(stmts@.drop_last() =~= prev);
                assert(ts[k] == ts[k]);
            }
        }
        self.expect(TokenKind::RBrace, "`}` to close the block")?;
        Ok(stmts)
    }

    // ---- statements ----

    /// `[: T] = expr` after a binding name.
    fn binding_tail(&mut self) -> (r: Result<(Option<TypeExpr>, Expr), Diagnostic>)
        requires
            old(self).wf(),
        ensures
            final(self).stays(*old(self)),
            r is Ok ==> final(self).moved(*old(self)),
            syntax_err(r),
            r matches Ok((ty, v)) ==> binding_derives(old(self).toks(), old(self).at(), ty, v, final(self).at()),
            r matches Ok((ty, _)) ==> (ty is Some <==> old(self).cur_kind() == TokenKind::Colon),
            old(self).cur_kind() == TokenKind::Eq && lone_literal_at(old(self).toks(), old(self).at() + 1) ==> (r
                matches Ok((ty, v)) && ty is None && literal_expr_is(v, old(self).toks()[old(self).at() + 1])
                && final(self).pos == old(self).pos + 2),
        decreases old(self).budget, old(self).remaining(), 19int,
    {
        let ty = if self.eat(TokenKind::Colon) {
            Some(self.type_expr()?)
        } else {
            None
        };
        let ghost m = self.at();
        self.expect(TokenKind::Eq, "`=`")?;
        let value = self.expr()?;
        proof {
            let ts = old(self).toks();
            assert(ts[m] == ts[m]);
            assert(ts[m].kind == TokenKind::Eq);
            assert(derives(ts, m + 1, value, 7, self.at()));
            if ty is Some {
                assert(ts[old(self).at()].kind == TokenKind::Colon);
                assert(old(self).at() + 1 < m < self.at());
            } else {
                assert(m == old(self).at());
            }
            assert(binding_derives(ts, old(self).at(), ty, value, self.at()));
        }
        Ok((ty, value))
    }

    #[verifier::spinoff_prover]
    #[verifier::rlimit(40)]
    fn stmt(&mut self) -> (r: Result<Stmt, Diagnostic>)
        requires
            old(self).wf(),
        ensures
            final(self).stays(*old(self)),
            r is Ok ==> final(self).moved(*old(self)),
            syntax_err(r),
            r matches Ok(s) ==> stmt_form(s, old(self).cur_kind(), old(self).toks()[old(self).at() + 1].kind),
            r matches Ok(s) ==> stmt_details(s, old(self).toks(), old(self).at()),
            r matches Ok(s) ==> stmt_derives(old(self).toks(), old(self).at(), s, final(self).at()),
            r is Ok ==> starts_stmt(old(self).cur_kind()) && stmt_opening(old(self).toks(), old(self).at()),
            plain_stmt_end(old(self).toks(), old(self).at()) matches Some(j) ==> (r matches Ok(s) && plain_stmt_is(
                s,
                old(self).toks(),
                old(self).at(),
            ) && final(self).at() == j),
        decreases old(self).budget, old(self).remaining(), 20int,
    {
        let span = self.span();
        match self.peek_kind() {
            TokenKind::Let => {
                self.bump();
                let (name, _) = self.expect_ident("a binding name")?;
                let (ty, value) = self.binding_tail()?;
                Ok(Stmt::Let { name, ty, value, span })
            },
            TokenKind::Var => {
                self.bump();
                let (name, _) = self.expect_ident("a variable name")?;
                let (ty, value) = self.binding_tail()?;
                Ok(Stmt::Var { name, ty, value, span })
            },
            TokenKind::Oracle => {
                self.bump();
                let (name, _) = self.expect_ident("an oracle name")?;
                self.expect(TokenKind::Eq, "`=`")?;
                self.expect(TokenKind::Summon, "`summon`")?;
                let model = self.string_literal_simple("a model id")?;
                Ok(Stmt::Summon { name, model, span })
            },
            TokenKind::Speak => {
                self.bump();
                let value = self.expr()?;
                Ok(Stmt::Speak { value, span })
            },
            TokenKind::While => {
                self.bump();
                let cond = self.expr()?;
                let body = self.block()?;
                Ok(Stmt::While { cond, body, span })
            },
            TokenKind::If => {
                self.bump();
                let cond = self.expr()?;
                let then_branch = self.block()?;
                let else_branch = if self.eat(TokenKind::Else) {
                    Some(self.block()?)
                } else {
                    None
                };
                Ok(Stmt::If { cond, then_branch, else_branch, span })
            },
            TokenKind::Return => {
                self.bump();
                let value = if self.check(TokenKind::RBrace) || self.check(TokenKind::Eof) {
                    None
                } else {
                    Some(self.expr()?)
                };
                Ok(Stmt::Return { value, span })
            },
            TokenKind::With => {
                self.bump();
                self.expect(TokenKind::Grant, "`grant` (the capabilities to grant)")?;
                let caps = self.capability_list()?;
                let body = self.block()?;
                Ok(Stmt::Grant { caps, body, span })
            },
            TokenKind::Within => {
                self.bump();
                let (scope, _) = self.expect_ident("a scope name")?;
                let body = self.block()?;
                Ok(Stmt::Within { scope, body, span })
            },
            TokenKind::Memory => self.memory_decl(),
            TokenKind::Divine => self.divine_stmt(),
            TokenKind::Enact => self.enact_stmt(),
            TokenKind::Ident => {
                if self.peek_kind2() == TokenKind::Eq {
                    let name = self.tokens[self.pos].text.clone();
                    self.bump();
                    self.bump();
                    let value = self.expr()?;
                    Ok(Stmt::Assign { name, value, span })
                } else {
                    Ok(Stmt::Expr(self.expr()?))
                }
            },
            _ => Ok(Stmt::Expr(self.expr()?)),
        }
    }

    /// `memory name { scope S, retention N unit, retrieval R, audit required }`
    fn memory_decl(&mut self) -> (r: Result<Stmt, Diagnostic>)
        requires
            old(self).wf(),
        ensures
            final(self).stays(*old(self)),
            r is Ok ==> final(self).moved(*old(self)),
            syntax_err(r),
            r matches Ok(st) ==> st is MemoryDecl,
            r matches Ok(st) ==> stmt_derives(old(self).toks(), old(self).at(), st, final(self).at()),
            r is Ok ==> old(self).cur_kind() == TokenKind::Memory && stmt_opening(old(self).toks(), old(self).at()),
        decreases old(self).budget, old(self).remaining(), 19int,
    {
        let ghost ts = old(self).toks();
        let span = self.span();
        self.expect(TokenKind::Memory, "`memory`")?;
        let (name, _) = self.expect_ident("a memory name")?;
        self.expect(TokenKind::LBrace, "`{` then the memory's governance settings")?;
        let ghost start = self.at();
        let mut scope: Option<String> = None;
        let mut retention: Option<(Num, String)> = None;
        let mut retrieval: Vec<String> = Vec::new();
        let mut audit_required = false;
        proof {
            assert(crate::text::views(retrieval@) =~= Seq::<Seq<char>>::empty());
            assert(settings_of(
                MemoryDecl {
                    name: name,
                    scope: scope,
                    retention: retention,
                    retrieval: retrieval,
                    audit_required: audit_required,
                    span: span,
                },
            ) == no_settings());
        }
        while !self.check(TokenKind::RBrace)
            invariant_except_break
                forall|jj: int|
                    jj >= self.at() ==> #[trigger] mem_settings(ts, start, jj, no_settings()) == mem_settings(
                        ts,
                        self.at(),
                        jj,
                        settings_of(
                            MemoryDecl {
                                name: name,
                                scope: scope,
                                retention: retention,
                                retrieval: retrieval,
                                audit_required: audit_required,
                                span: span,
                            },
                        ),
                    ),
            invariant
                self.stays(*old(self)),
                self.moved(*old(self)),
                ts == old(self).toks(),
                start <= self.at(),
            ensures
                mem_settings(ts, start, self.at(), no_settings()) == Some(
                    settings_of(
                        MemoryDecl {
                            name: name,
                            scope: scope,
                            retention: retention,
                            retrieval: retrieval,
                            audit_required: audit_required,
                            span: span,
                        },
                    ),
                ),
            decreases self.remaining(),
        {
            let ghost k = self.at();
            let ghost acc = settings_of(
                MemoryDecl {
                    name: name,
                    scope: scope,
                    retention: retention,
                    retrieval: retrieval,
                    audit_required: audit_required,
                    span: span,
                },
            );
            let (key, kspan) = self.expect_ident("a memory setting")?;
            if str_eq(key.as_str(), "scope") {
                let (s, _) = self.expect_ident("a scope name")?;
                scope = Some(s);
            } else if str_eq(key.as_str(), "retention") {
                let amount = self.number("a retention amount")?;
                let unit = if self.check(TokenKind::Ident) {
                    let (u, _) = self.expect_ident("a retention unit")?;
                    u
                } else {
                    String::new()
                };
                retention = Some((amount, unit));
            } else if str_eq(key.as_str(), "retrieval") {
                let (mode, _) = self.expect_ident("a retrieval mode")?;
                proof {
                    crate::text::lemma_views_push(retrieval@, mode);
                }
                retrieval.push(mode);
            } else if str_eq(key.as_str(), "audit") {
                let (a, _) = self.expect_ident("an audit mode")?;
                audit_required = str_eq(a.as_str(), "required");
            } else {
                let mut m = owned("unknown memory setting `");
                push_str(&mut m, key.as_str());
                push_str(&mut m, "`");
                return Err(Diagnostic::parse(m, kspan));
            }
            let ghost e = self.at();
            proof {
                let acc2 = settings_of(
                    MemoryDecl {
                        name: name,
                        scope: scope,
                        retention: retention,
                        retrieval: retrieval,
                        audit_required: audit_required,
                        span: span,
                    },
                );
                assert(mem_setting(ts, k, acc) == Some((acc2, e)));
            }
            if !self.eat(TokenKind::Comma) {
                break;
            }
        }
        self.expect(TokenKind::RBrace, "`}` to close the memory settings")?;
        Ok(Stmt::MemoryDecl(MemoryDecl { name, scope, retention, retrieval, audit_required, span }))
    }

    #[verifier::spinoff_prover]
    #[verifier::rlimit(40)]
    fn divine_stmt(&mut self) -> (r: Result<Stmt, Diagnostic>)
        requires
            old(self).wf(),
        ensures
            final(self).stays(*old(self)),
            r is Ok ==> final(self).moved(*old(self)),
            syntax_err(r),
            r matches Ok(st) ==> st is Divine,
            r matches Ok(st) ==> stmt_derives(old(self).toks(), old(self).at(), st, final(self).at()),
            r is Ok ==> old(self).cur_kind() == TokenKind::Divine && stmt_opening(old(self).toks(), old(self).at()),
        decreases old(self).budget, old(self).remaining(), 19int,
    {
        let span = self.span();
        self.expect(TokenKind::Divine, "`divine`")?;
        let (name, _) = self.expect_ident("a result name")?;
        self.expect(TokenKind::Colon, "`:` then the output type")?;
        let out_ty = self.type_expr()?;
        let ghost m = self.at();
        self.expect(TokenKind::From, "`from` (the inference inputs)")?;
        self.expect(TokenKind::LParen, "`(`")?;
        let inputs = self.expr_list(TokenKind::RParen, "`)`")?;
        let ghost n = (self.at() - 1) as int;
        self.expect(TokenKind::Using, "`using` (the oracle)")?;
        let (oracle, oracle_span) = self.expect_ident("an oracle name")?;
        let ghost q = self.at();
        let (threshold, fallback) = if self.eat(TokenKind::With) {
            self.expect(TokenKind::Confidence, "`confidence`")?;
            self.expect(TokenKind::Ge, "`>=`")?;
            let t = self.number("a confidence threshold")?;
            self.expect(TokenKind::Fallback, "`fallback <expr>`")?;
            let f = self.expr()?;
            (Some(t), Some(f))
        } else {
            (None, None)
        };
        proof {
            let ts = old(self).toks();
            assert(divine_tail(ts, q, threshold, fallback, self.at()));
            lemma_divine_derives(ts, old(self).at(), DivineStmt { name, out_ty, inputs, oracle, oracle_span, threshold, fallback, span }, m, n, self.at());
        }
        Ok(
            Stmt::Divine(
                DivineStmt { name, out_ty, inputs, oracle, oracle_span, threshold, fallback, span },
            ),
        )
    }

    #[verifier::spinoff_prover]
    #[verifier::rlimit(40)]
    fn enact_stmt(&mut self) -> (r: Result<Stmt, Diagnostic>)
        requires
            old(self).wf(),
        ensures
            final(self).stays(*old(self)),
            r is Ok ==> final(self).moved(*old(self)),
            syntax_err(r),
            r matches Ok(st) ==> st is Enact,
            r matches Ok(st) ==> stmt_derives(old(self).toks(), old(self).at(), st, final(self).at()),
            r is Ok ==> old(self).cur_kind() == TokenKind::Enact && stmt_opening(old(self).toks(), old(self).at()),
        decreases old(self).budget, old(self).remaining(), 19int,
    {
        let ghost ts = old(self).toks();
        let span = self.span();
        self.expect(TokenKind::Enact, "`enact`")?;
        let subject = self.expr()?;
        let ghost m = self.at();
        self.expect(TokenKind::LBrace, "`{` then the action arms")?;
        let mut arms: Vec<EnactArm> = Vec::new();
        while !self.check(TokenKind::RBrace) && !self.check(TokenKind::Eof)
            invariant
                self.stays(*old(self)),
                self.moved(*old(self)),
                ts == old(self).toks(),
                m + 1 <= self.at(),
                arms_derive(ts, m + 1, arms@, self.at()),
            decreases self.remaining(),
        {
            let aspan = self.span();
            let ghost it_start = self.pos;
            let ghost prev = arms@;
            let (variant, _) = self.expect_ident("a variant name")?;
            let mut bindings: Vec<String> = Vec::new();
            if self.eat(TokenKind::LParen) {
                while !self.check(TokenKind::RParen)
                    invariant_except_break
                        name_commas(ts, it_start + 2, bindings@, self.at()),
                    invariant
                        self.stays(*old(self)),
                        self.moved(*old(self)),
                        ts == old(self).toks(),
                        self.pos >= it_start + 2,
                    ensures
                        names_derive(ts, it_start + 2, bindings@, self.at()),
                    decreases self.remaining(),
                {
                    let ghost bprev = bindings@;
                    let (b, _) = self.expect_ident("a field binding")?;
                    bindings.push(b);
                    proof {
                        assert(bindings@.drop_last() =~= bprev);
                    }
                    if !self.eat(TokenKind::Comma) {
                        break;
                    }
                }
                self.expect(TokenKind::RParen, "`)`")?;
            }
            let ghost fa = self.at();
            proof {
                let k = it_start as int;
                assert((fa == k + 1 && bindings@.len() == 0) || (ts[k + 1].kind == TokenKind::LParen && k + 2 <= fa
                    - 1 && ts[fa - 1].kind == TokenKind::RParen && names_derive(ts, k + 2, bindings@, fa - 1)));
            }
            self.expect(TokenKind::FatArrow, "`=>`")?;
            let body = self.block()?;
            let ghost q = self.at();
            let arm = EnactArm { variant, bindings, body, span: aspan };
            proof {
                lemma_arm_derives(ts, it_start as int, arm, fa, q);
            }
            arms.push(arm);
            self.eat(TokenKind::Comma);
            proof {
                assert(arms@.drop_last() =~= prev);
                assert(ts[it_start as int] == ts[it_start as int]);
            }
        }
        self.expect(TokenKind::RBrace, "`}` to close enact")?;
        proof {
            assert(ts[m] == ts[m]);
        }
        Ok(Stmt::Enact { subject, arms, span })
    }

    /// A glyph literal without interpolation, as plain text.
    fn string_literal_simple(&mut self, what: &str) -> (r: Result<String, Diagnostic>)
        requires
            old(self).wf(),
        ensures
            final(self).stays(*old(self)),
            r is Ok ==> old(self).cur_kind() == TokenKind::Str,
            r matches Ok(m) ==> lit_parts_text(old(self).toks()[old(self).at()].parts) == Some(m@)
                && final(self).at() == old(self).at() + 1,
            r is Ok ==> final(self).moved(*old(self)),
            syntax_err(r),
    {
        let span = self.span();
        if !self.check(TokenKind::Str) {
            return Err(self.expected(what));
        }
        let mut s = String::new();
        let n = self.tokens[self.pos].parts.len();
        let mut i: usize = 0;
        let ghost parts = old(self).toks()[old(self).at()].parts;
        while i < n
            invariant
                self.wf(),
                self.pos == old(self).pos,
                self.tokens@ == old(self).tokens@,
                i <= n,
                n == self.tokens@[self.pos as int].parts.len(),
                parts == old(self).toks()[old(self).at()].parts,
                lit_parts_text(parts.take(i as int)) == Some(s@),
            decreases n - i,
        {
            proof {
                assert(parts.take(i + 1).drop_last() =~= parts.take(i as int));
            }
            match &self.tokens[self.pos].parts[i] {
                StrPart::Lit(t) => push_str(&mut s, t.as_str()),
                StrPart::Expr(_) => {
                    return Err(Diagnostic::parse(owned("interpolation is not allowed here"), span));
                },
            }
            i = i + 1;
        }
        proof {
            assert(parts.take(n as int) =~= parts);
        }
        self.bump();
        Ok(s)
    }

    // ---- expressions ----

    fn expr(&mut self) -> (r: Result<Expr, Diagnostic>)
        requires
            old(self).wf(),
        ensures
            final(self).stays(*old(self)),
            r is Ok ==> final(self).moved(*old(self)),
            syntax_err(r),
            old(self).lone_literal() ==> old(self).literal_parsed(r, *final(self)),
            r is Ok ==> starts_expr(old(self).cur_kind()),
            r matches Ok(e) ==> derives(old(self).toks(), old(self).at(), e, 7, final(self).at()) && stops(7, old(self).toks()[final(self).at()].kind),
        decreases old(self).budget, old(self).remaining(), 10int,
    {
        self.or_expr()
    }

    fn or_expr(&mut self) -> (r: Result<Expr, Diagnostic>)
        requires
            old(self).wf(),
        ensures
            final(self).stays(*old(self)),
            r is Ok ==> final(self).moved(*old(self)),
            syntax_err(r),
            old(self).lone_literal() ==> old(self).literal_parsed(r, *final(self)),
            r is Ok ==> starts_expr(old(self).cur_kind()),
            r matches Ok(e) ==> derives(old(self).toks(), old(self).at(), e, 7, final(self).at()) && stops(7, old(self).toks()[final(self).at()].kind),
        decreases old(self).budget, old(self).remaining(), 9int,
    {
        let ghost ts = old(self).toks();
        let ghost start = old(self).at();
        let mut lhs = self.and_expr()?;
        while self.check(TokenKind::Or)
            invariant
                self.stays(*old(self)),
                self.moved(*old(self)),
                old(self).lone_literal() ==> (literal_expr_is(lhs, old(self).toks()[old(self).at()])
                    && self.pos == old(self).pos + 1),
                ts == old(self).toks(),
                start == old(self).at(),
                derives(ts, start, lhs, 7, self.at()),
                stops(6, ts[self.at()].kind),
            decreases self.remaining(),
        {
            let ghost k = self.at();
            let span = self.span();
            self.bump();
            let rhs = self.and_expr()?;
            let ghost l0 = lhs;
            lhs = Expr::Binary { op: BinOp::Or, lhs: Box::new(lhs), rhs: Box::new(rhs), span };
            proof {
                assert(derives(ts, start, l0, 7, k));
            }
        }
        Ok(lhs)
    }

    fn and_expr(&mut self) -> (r: Result<Expr, Diagnostic>)
        requires
            old(self).wf(),
        ensures
            final(self).stays(*old(self)),
            r is Ok ==> final(self).moved(*old(self)),
            syntax_err(r),
            old(self).lone_literal() ==> old(self).literal_parsed(r, *final(self)),
            r is Ok ==> starts_expr(old(self).cur_kind()),
            r matches Ok(e) ==> derives(old(self).toks(), old(self).at(), e, 6, final(self).at()) && stops(6, old(self).toks()[final(self).at()].kind),
        decreases old(self).budget, old(self).remaining(), 8int,
    {
        let ghost ts = old(self).toks();
        let ghost start = old(self).at();
        let mut lhs = self.cmp_expr()?;
        while self.check(TokenKind::And)
            invariant
                self.stays(*old(self)),
                self.moved(*old(self)),
                old(self).lone_literal() ==> (literal_expr_is(lhs, old(self).toks()[old(self).at()])
                    && self.pos == old(self).pos + 1),
                ts == old(self).toks(),
                start == old(self).at(),
                derives(ts, start, lhs, 6, self.at()),
                stops(5, ts[self.at()].kind),
            decreases self.remaining(),
        {
            let ghost k = self.at();
            let span = self.span();
            self.bump();
            let rhs = self.cmp_expr()?;
            proof {
                assert(derives(ts, start, lhs, 6, k));
            }
            lhs = Expr::Binary { op: BinOp::And, lhs: Box::new(lhs), rhs: Box::new(rhs), span };
        }
        Ok(lhs)
    }

    fn cmp_op(&self) -> (r: Option<BinOp>)
        requires
            self.wf(),
        ensures
            r is Some ==> self.cur_kind() != TokenKind::Eof,
            r == comparison_of(self.cur_kind()),
    {
        match self.peek_kind() {
            TokenKind::Lt => Some(BinOp::Lt),
            TokenKind::Le => Some(BinOp::Le),
            TokenKind::Gt => Some(BinOp::Gt),
            TokenKind::Ge => Some(BinOp::Ge),
            TokenKind::EqEq => Some(BinOp::Eq),
            TokenKind::Ne => Some(BinOp::Ne),
            _ => None,
        }
    }

    fn cmp_expr(&mut self) -> (r: Result<Expr, Diagnostic>)
        requires
            old(self).wf(),
        ensures
            final(self).stays(*old(self)),
            r is Ok ==> final(self).moved(*old(self)),
            syntax_err(r),
            old(self).lone_literal() ==> old(self).literal_parsed(r, *final(self)),
            r is Ok ==> starts_expr(old(self).cur_kind()),
            r matches Ok(e) ==> derives(old(self).toks(), old(self).at(), e, 5, final(self).at()) && stops(5, old(self).toks()[final(self).at()].kind),
        decreases old(self).budget, old(self).remaining(), 7int,
    {
        let ghost ts = old(self).toks();
        let ghost start = old(self).at();
        let mut lhs = self.add_expr()?;
        loop
            invariant
                self.stays(*old(self)),
                self.moved(*old(self)),
                old(self).lone_literal() ==> (literal_expr_is(lhs, old(self).toks()[old(self).at()])
                    && self.pos == old(self).pos + 1),
                ts == old(self).toks(),
                start == old(self).at(),
                derives(ts, start, lhs, 5, self.at()),
                stops(4, ts[self.at()].kind),
            ensures
                stops(5, ts[self.at()].kind),
            decreases self.remaining(),
        {
            let op = match self.cmp_op() {
                Some(op) => op,
                None => {
                    break;
                },
            };
            let ghost k = self.at();
            let span = self.span();
            self.bump();
            let rhs = self.add_expr()?;
            proof {
                assert(derives(ts, start, lhs, 5, k));
            }
            lhs = Expr::Binary { op, lhs: Box::new(lhs), rhs: Box::new(rhs), span };
        }
        Ok(lhs)
    }

    fn add_expr(&mut self) -> (r: Result<Expr, Diagnostic>)
        requires
            old(self).wf(),
        ensures
            final(self).stays(*old(self)),
            r is Ok ==> final(self).moved(*old(self)),
            syntax_err(r),
            old(self).lone_literal() ==> old(self).literal_parsed(r, *final(self)),
            r is Ok ==> starts_expr(old(self).cur_kind()),
            r matches Ok(e) ==> derives(old(self).toks(), old(self).at(), e, 4, final(self).at()) && stops(4, old(self).toks()[final(self).at()].kind),
        decreases old(self).budget, old(self).remaining(), 6int,
    {
        let ghost ts = old(self).toks();
        let ghost start = old(self).at();
        let mut lhs = self.mul_expr()?;
        loop
            invariant
                self.stays(*old(self)),
                self.moved(*old(self)),
                old(self).lone_literal() ==> (literal_expr_is(lhs, old(self).toks()[old(self).at()])
                    && self.pos == old(self).pos + 1),
                ts == old(self).toks(),
                start == old(self).at(),
                derives(ts, start, lhs, 4, self.at()),
                stops(3, ts[self.at()].kind),
            ensures
                stops(4, ts[self.at()].kind),
            decreases self.remaining(),
        {
            let op = if self.check(TokenKind::Plus) {
                BinOp::Add
            } else if self.check(TokenKind::Minus) {
                BinOp::Sub
            } else {
                break;
            };
            let ghost k = self.at();
            let span = self.span();
            self.bump();
            let rhs = self.mul_expr()?;
            proof {
                assert(derives(ts, start, lhs, 4, k));
            }
            lhs = Expr::Binary { op, lhs: Box::new(lhs), rhs: Box::new(rhs), span };
        }
        Ok(lhs)
    }

    fn mul_expr(&mut self) -> (r: Result<Expr, Diagnostic>)
        requires
            old(self).wf(),
        ensures
            final(self).stays(*old(self)),
            r is Ok ==> final(self).moved(*old(self)),
            syntax_err(r),
            old(self).lone_literal() ==> old(self).literal_parsed(r, *final(self)),
            r is Ok ==> starts_expr(old(self).cur_kind()),
            r matches Ok(e) ==> derives(old(self).toks(), old(self).at(), e, 3, final(self).at()) && stops(3, old(self).toks()[final(self).at()].kind),
        decreases old(self).budget, old(self).remaining(), 5int,
    {
        let ghost ts = old(self).toks();
        let ghost start = old(self).at();
        let mut lhs = self.unary_expr()?;
        loop
            invariant
                self.stays(*old(self)),
                self.moved(*old(self)),
                old(self).lone_literal() ==> (literal_expr_is(lhs, old(self).toks()[old(self).at()])
                    && self.pos == old(self).pos + 1),
                ts == old(self).toks(),
                start == old(self).at(),
                derives(ts, start, lhs, 3, self.at()),
                stops(2, ts[self.at()].kind),
            ensures
                stops(3, ts[self.at()].kind),
            decreases self.remaining(),
        {
            let op = if self.check(TokenKind::Star) {
                BinOp::Mul
            } else if self.check(TokenKind::Slash) {
                BinOp::Div
            } else {
                break;
            };
            let ghost k = self.at();
            let span = self.span();
            self.bump();
            let rhs = self.unary_expr()?;
            proof {
                assert(derives(ts, start, lhs, 3, k));
            }
            lhs = Expr::Binary { op, lhs: Box::new(lhs), rhs: Box::new(rhs), span };
        }
        Ok(lhs)
    }

    fn unary_expr(&mut self) -> (r: Result<Expr, Diagnostic>)
        requires
            old(self).wf(),
        ensures
            final(self).stays(*old(self)),
            r is Ok ==> final(self).moved(*old(self)),
            syntax_err(r),
            old(self).lone_literal() ==> old(self).literal_parsed(r, *final(self)),
            r is Ok ==> starts_expr(old(self).cur_kind()),
            r matches Ok(e) ==> derives(old(self).toks(), old(self).at(), e, 2, final(self).at()) && stops(2, old(self).toks()[final(self).at()].kind),
        decreases old(self).budget, old(self).remaining(), 4int,
    {
        let span = self.span();
        if self.check(TokenKind::Not) {
            self.bump();
            let rhs = self.unary_expr()?;
            Ok(Expr::Unary { op: UnOp::Not, rhs: Box::new(rhs), span })
        } else if self.check(TokenKind::Minus) {
            self.bump();
            let rhs = self.unary_expr()?;
            Ok(Expr::Unary { op: UnOp::Neg, rhs: Box::new(rhs), span })
        } else {
            self.postfix_expr()
        }
    }

    fn postfix_expr(&mut self) -> (r: Result<Expr, Diagnostic>)
        requires
            old(self).wf(),
        ensures
            final(self).stays(*old(self)),
            r is Ok ==> final(self).moved(*old(self)),
            syntax_err(r),
            old(self).lone_literal() ==> old(self).literal_parsed(r, *final(self)),
            r is Ok ==> starts_primary(old(self).cur_kind()),
            r matches Ok(e) ==> derives(old(self).toks(), old(self).at(), e, 1, final(self).at()) && stops(1, old(self).toks()[final(self).at()].kind),
        decreases old(self).budget, old(self).remaining(), 3int,
    {
        let ghost ts = old(self).toks();
        let ghost start = old(self).at();
        let mut e = self.primary()?;
        while self.check(TokenKind::Dot)
            invariant
                self.stays(*old(self)),
                self.moved(*old(self)),
                old(self).lone_literal() ==> (literal_expr_is(e, old(self).toks()[old(self).at()])
                    && self.pos == old(self).pos + 1),
                ts == old(self).toks(),
                start == old(self).at(),
                derives(ts, start, e, 1, self.at()),
            decreases self.remaining(),
        {
            let ghost k = self.at();
            proof {
                assert(derives(ts, start, e, 1, k));
            }
            let span = self.span();
            self.bump();
            let (name, _) = self.expect_ident("a field or method name")?;
            if self.check(TokenKind::LParen) {
                let args = self.call_args()?;
                proof {
                    lemma_method_derives(ts, start, e, name, args, span, k, self.at());
                }
                e = Expr::Method { recv: Box::new(e), method: name, args, span };
            } else {
                proof {
                    lemma_field_derives(ts, start, e, name, span, k);
                }
                e = Expr::Field { recv: Box::new(e), field: name, span };
            }
        }
        Ok(e)
    }

    /// Comma-separated expressions up to `close`.
    fn expr_list(&mut self, close: TokenKind, what: &str) -> (r: Result<Vec<Expr>, Diagnostic>)
        requires
            old(self).wf(),
            close != TokenKind::Eof,
        ensures
            final(self).stays(*old(self)),
            r is Ok ==> final(self).moved(*old(self)),
            syntax_err(r),
            r matches Ok(items) ==> old(self).toks()[final(self).at() - 1].kind == close && list_derives(
                old(self).toks(),
                old(self).at(),
                items@,
                final(self).at() - 1,
            ),
        decreases old(self).budget, old(self).remaining(), 11int,
    {
        let ghost ts = old(self).toks();
        let ghost start = old(self).at();
        let mut items: Vec<Expr> = Vec::new();
        while !self.check(close)
            invariant_except_break
                commas_derive(ts, start, items@, self.at()),
            invariant
                self.stays(*old(self)),
                close != TokenKind::Eof,
                ts == old(self).toks(),
                start == old(self).at(),
            ensures
                list_derives(ts, start, items@, self.at()),
            decreases self.remaining(),
        {
            let ghost k = self.at();
            let ghost prev = items@;
            let e = self.expr()?;
            items.push(e);
            proof {
                assert(items@.drop_last() =~= prev);
                assert(ts[k] == ts[k]);
            }
            if !self.eat(TokenKind::Comma) {
                break;
            }
        }
        self.expect(close, what)?;
        Ok(items)
    }

    /// `( args )`
    fn call_args(&mut self) -> (r: Result<Vec<Expr>, Diagnostic>)
        requires
            old(self).wf(),
        ensures
            final(self).stays(*old(self)),
            r is Ok ==> final(self).moved(*old(self)),
            syntax_err(r),
            r matches Ok(args) ==> old(self).cur_kind() == TokenKind::LParen && old(self).at() + 1 < final(self).at()
                && old(self).toks()[final(self).at() - 1].kind == TokenKind::RParen && list_derives(
                old(self).toks(),
                old(self).at() + 1,
                args@,
                final(self).at() - 1,
            ),
        decreases old(self).budget, old(self).remaining(), 12int,
    {
        self.expect(TokenKind::LParen, "`(`")?;
        self.expr_list(TokenKind::RParen, "`)`")
    }

    /// `name: expr` pairs up to `close`; a bare `name` is short for `name: name`.
    fn expr_fields(&mut self, close: TokenKind, what: &str) -> (r: Result<Vec<(String, Expr)>, Diagnostic>)
        requires
            old(self).wf(),
            close != TokenKind::Eof,
        ensures
            final(self).stays(*old(self)),
            r is Ok ==> final(self).moved(*old(self)),
            syntax_err(r),
            r matches Ok(fields) ==> old(self).toks()[final(self).at() - 1].kind == close && fields_derive(
                old(self).toks(),
                old(self).at(),
                fields@,
                final(self).at() - 1,
            ),
        decreases old(self).budget, old(self).remaining(), 11int,
    {
        let ghost ts = old(self).toks();
        let ghost start = old(self).at();
        let mut fields: Vec<(String, Expr)> = Vec::new();
        while !self.check(close)
            invariant_except_break
                field_commas_derive(ts, start, fields@, self.at()),
            invariant
                self.stays(*old(self)),
                close != TokenKind::Eof,
                ts == old(self).toks(),
                start == old(self).at(),
            ensures
                fields_derive(ts, start, fields@, self.at()),
            decreases self.remaining(),
        {
            let ghost k = self.at();
            let ghost prev = fields@;
            let (fname, fspan) = self.expect_ident("a field name")?;
            if self.eat(TokenKind::Colon) {
                let value = self.expr()?;
                fields.push((fname, value));
            } else {
                let v = Expr::Ident(fname.clone(), fspan);
                fields.push((fname, v));
            }
            proof {
                assert(fields@.drop_last() =~= prev);
                assert(field_derives(ts, k, fields@.last(), self.at()));
            }
            if !self.eat(TokenKind::Comma) {
                break;
            }
        }
        self.expect(close, what)?;
        Ok(fields)
    }

    fn primary(&mut self) -> (r: Result<Expr, Diagnostic>)
        requires
            old(self).wf(),
        ensures
            final(self).stays(*old(self)),
            r is Ok ==> final(self).moved(*old(self)),
            syntax_err(r),
            literal_kind(old(self).cur_kind()) ==> old(self).literal_parsed(r, *final(self)),
            r is Ok ==> starts_primary(old(self).cur_kind()),
            r matches Ok(e) ==> derives(old(self).toks(), old(self).at(), e, 0, final(self).at()),
        decreases old(self).budget, old(self).remaining(), 2int,
    {
        let span = self.span();
        match self.peek_kind() {
            TokenKind::Number => {
                let n = self.tokens[self.pos].number;
                self.bump();
                Ok(Expr::Number(n, span))
            },
            TokenKind::True => {
                self.bump();
                Ok(Expr::Bool(true, span))
            },
            TokenKind::False => {
                self.bump();
                Ok(Expr::Bool(false, span))
            },
            TokenKind::Str => {
                let segs = self.glyph_segments(span)?;
                Ok(Expr::Str(segs, span))
            },
            TokenKind::LParen => {
                self.bump();
                let e = self.expr()?;
                self.expect(TokenKind::RParen, "`)`")?;
                Ok(e)
            },
            TokenKind::LBracket => {
                self.bump();
                let items = self.expr_list(TokenKind::RBracket, "`]` to close the list")?;
                Ok(Expr::List { items, span })
            },
            TokenKind::LBrace => {
                self.bump();
                let fields = self.expr_fields(TokenKind::RBrace, "`}` to close the record")?;
                Ok(Expr::Record { fields, span })
            },
            TokenKind::Listen => {
                self.bump();
                let args = self.call_args()?;
                Ok(Expr::Call { callee: owned("listen"), args, span })
            },
            TokenKind::Ident => {
                let name = self.tokens[self.pos].text.clone();
                self.bump();
                let is_variant = starts_uppercase(&name);
                if self.check(TokenKind::LParen) {
                    if is_variant {
                        self.bump();
                        let fields = self.expr_fields(TokenKind::RParen, "`)`")?;
                        Ok(Expr::Variant { name, fields, span })
                    } else {
                        let args = self.call_args()?;
                        Ok(Expr::Call { callee: name, args, span })
                    }
                } else if is_variant {
                    Ok(Expr::Variant { name, fields: Vec::new(), span })
                } else {
                    Ok(Expr::Ident(name, span))
                }
            },
            _ => {
                let mut m = owned("expected an expression, found ");
                let found = self.describe();
                push_str(&mut m, found.as_str());
                Err(Diagnostic::parse(m, span))
            },
        }
    }

    /// The segments of the current glyph literal, each `${...}` parsed.
    fn glyph_segments(&mut self, span: Span) -> (r: Result<Vec<StrSeg>, Diagnostic>)
        requires
            old(self).wf(),
            old(self).cur_kind() == TokenKind::Str,
        ensures
            final(self).stays(*old(self)),
            r is Ok ==> final(self).moved(*old(self)),
            syntax_err(r),
            r matches Ok(segs) ==> segs_match(segs@, old(self).toks()[old(self).at()].parts) && final(self).at()
                == old(self).at() + 1,
        decreases old(self).budget, old(self).remaining(), 1int,
    {
        let mut segs: Vec<StrSeg> = Vec::new();
        let n = self.tokens[self.pos].parts.len();
        let mut i: usize = 0;
        while i < n
            invariant
                self.wf(),
                self.pos == old(self).pos,
                self.tokens@ == old(self).tokens@,
                self.budget == old(self).budget,
                i <= n,
                n == self.tokens@[self.pos as int].parts.len(),
                segs@.len() == i,
                forall|m: int|
                    0 <= m < i ==> seg_matches(#[trigger] segs@[m], old(self).toks()[old(self).at()].parts[m]),
            decreases n - i,
        {
            let ghost prev = segs@;
            match &self.tokens[self.pos].parts[i] {
                StrPart::Lit(t) => segs.push(StrSeg::Lit(t.clone())),
                StrPart::Expr(raw) => {
                    let e = parse_expr_str(raw.as_str(), span, self.budget)?;
                    segs.push(StrSeg::Interp(Box::new(e)));
                },
            }
            proof {
                assert forall|m: int| 0 <= m < i + 1 implies seg_matches(
                    #[trigger] segs@[m],
                    old(self).toks()[old(self).at()].parts[m],
                ) by {
                    if m < i {
                        assert(segs@[m] == prev[m]);
                    }
                }
            }
            i = i + 1;
        }
        self.bump();
        Ok(segs)
    }
}

/// An `enact` arm from its parts.
proof fn lemma_arm_derives(ts: Seq<TokView>, k: int, a: EnactArm, fa: int, q: int)
    requires
        0 <= k < fa < q,
        ts[k].kind == TokenKind::Ident,
        a.variant@ == ts[k].text,
        a.span == ts[k].span,
        ts[fa].kind == TokenKind::FatArrow,
        block_derives(ts, fa + 1, a.body@, q),
        (fa == k + 1 && a.bindings@.len() == 0) || (ts[k + 1].kind == TokenKind::LParen && k + 2 <= fa - 1
            && ts[fa - 1].kind == TokenKind::RParen && names_derive(ts, k + 2, a.bindings@, fa - 1)),
    ensures
        arm_derives(ts, k, a, q),
{
    assert(ts[fa] == ts[fa]);
}

/// A `divine` statement from its parts.
proof fn lemma_divine_derives(ts: Seq<TokView>, i: int, d: DivineStmt, m: int, n: int, j: int)
    requires
        0 <= i,
        d.span == ts[i].span,
        ts[i].kind == TokenKind::Divine,
        ts[i + 1].kind == TokenKind::Ident,
        d.name@ == ts[i + 1].text,
        ts[i + 2].kind == TokenKind::Colon,
        i + 3 < m < n,
        type_derives(ts, i + 3, d.out_ty, m),
        ts[m].kind == TokenKind::From,
        ts[m + 1].kind == TokenKind::LParen,
        list_derives(ts, m + 2, d.inputs@, n),
        ts[n].kind == TokenKind::RParen,
        ts[n + 1].kind == TokenKind::Using,
        ts[n + 2].kind == TokenKind::Ident,
        d.oracle@ == ts[n + 2].text,
        d.oracle_span == ts[n + 2].span,
        divine_tail(ts, n + 3, d.threshold, d.fallback, j),
    ensures
        divine_derives(ts, i, d, j),
{
    assert(divine_joints(ts, m, n));
}

/// A field access extends the operand before it.
proof fn lemma_field_derives(ts: Seq<TokView>, i: int, recv: Expr, name: String, span: Span, k: int)
    requires
        derives(ts, i, recv, 1, k),
        i < k,
        k + 2 < ts.len(),
        ts[k].kind == TokenKind::Dot,
        span == ts[k].span,
        ts[k + 1].kind == TokenKind::Ident,
        name@ == ts[k + 1].text,
        ts[k + 2].kind != TokenKind::LParen,
    ensures
        derives(ts, i, Expr::Field { recv: Box::new(recv), field: name, span }, 1, k + 2),
{
}

/// A method call extends the operand before it.
proof fn lemma_method_derives(
    ts: Seq<TokView>,
    i: int,
    recv: Expr,
    name: String,
    args: Vec<Expr>,
    span: Span,
    k: int,
    j: int,
)
    requires
        derives(ts, i, recv, 1, k),
        i < k,
        k + 3 < j < ts.len(),
        ts[k].kind == TokenKind::Dot,
        span == ts[k].span,
        ts[k + 1].kind == TokenKind::Ident,
        name@ == ts[k + 1].text,
        ts[k + 2].kind == TokenKind::LParen,
        ts[j - 1].kind == TokenKind::RParen,
        list_derives(ts, k + 3, args@, j - 1),
    ensures
        derives(ts, i, Expr::Method { recv: Box::new(recv), method: name, args, span }, 1, j),
{
    assert(method_call_at(ts, k));
}

/// Does `name` start with an uppercase letter (a variant name)?
fn starts_uppercase(name: &String) -> (r: bool)
    ensures
        r == (name@.len() > 0 && crate::chars::unicode_uppercase(name@[0])),
{
    let cs = chars_of(name.as_str());
    if cs.len() > 0 {
        is_uppercase(cs[0])
    } else {
        false
    }
}

/// Parses one expression from the raw source of a `${...}` interpolation.
fn parse_expr_str(src: &str, anchor: Span, budget: usize) -> (r: Result<Expr, Diagnostic>)
    ensures
        syntax_err(r),
        budget == 0 ==> r is Err && r->Err_0.message@ == "interpolation nested too deeply"@ && r->Err_0.span == Some(anchor),
        budget > 0 && src@.len() >= 0xFFFF_FFFF ==> r is Err && r->Err_0.message@ == "interpolation too long"@
            && r->Err_0.span == Some(anchor),
        budget > 0 && src@.len() < 0xFFFF_FFFF ==> match lex_spec(src@, 0) {
            Err((m, sp)) => r is Err && r->Err_0.message@ == m && r->Err_0.span == Some(anchor),
            Ok(_) => true,
        },
        r is Ok ==> budget > 0 && src@.len() < 0xFFFF_FFFF && lex_spec(src@, 0) is Ok,
        r matches Ok(e) ==> interp_derives(src@, e),
    decreases budget, 0nat, 0int,
{
    if budget == 0 {
        return Err(Diagnostic::parse(owned("interpolation nested too deeply"), anchor));
    }
    let cs = chars_of(src);
    if cs.len() >= 0xFFFF_FFFF {
        return Err(Diagnostic::parse(owned("interpolation too long"), anchor));
    }
    let mut lexer = Lexer::from_chars(cs);
    let tokens = match lexer.run() {
        Ok(t) => t,
        Err(d) => {
            return Err(Diagnostic::parse(d.message, anchor));
        },
    };
    let ghost toks = tokens@;
    let mut p = Parser::new(tokens, budget - 1);
    let e = p.expr()?;
    if !p.check(TokenKind::Eof) {
        return Err(p.expected("end of interpolation expression"));
    }
    proof {
        let ts = toks_view(toks);
        assert(ts[p.at()].kind == toks[p.at()].kind);
        assert(p.at() == ts.len() - 1);
    }
    Ok(e)
}

/// A source that lexes to nothing but the end of input (only blanks and
/// comments).
pub open spec fn empty_source(src: Seq<char>) -> bool {
    lex_spec(src, 0) matches Ok(ts) && ts.len() == 1
}

/// Lexes and parses a whole program.
pub fn parse(src: &str) -> (r: Result<Program, Diagnostic>)
    requires
        src@.len() < 0xFFFF_FFFF,
    ensures
        r is Err ==> r->Err_0.stage == Stage::Lex || r->Err_0.stage == Stage::Parse,
        match lex_spec(src@, 0) {
            Err((m, sp)) => r is Err && r->Err_0.stage == Stage::Lex && r->Err_0.message@ == m && r->Err_0.span
                == Some(sp),
            Ok(_) => r is Err ==> r->Err_0.stage == Stage::Parse,
        },
        empty_source(src@) ==> r is Ok && r->Ok_0.items@.len() == 0,
        lex_spec(src@, 0) matches Ok(ts) ==> (ts[0].kind != TokenKind::Eof && !starts_item(ts[0].kind) ==> r is Err),
        r matches Ok(p) ==> lex_spec(src@, 0) matches Ok(ts) && program_derives(ts, p.items@),
        lex_spec(src@, 0) matches Ok(ts) ==> (plain_program_from(ts, 0) ==> (r matches Ok(p) && plain_items(
            p.items@,
            ts,
            plain_starts(ts, 0),
        ))),
{
    let cs = chars_of(src);
    let budget = cs.len();
    let mut lexer = Lexer::from_chars(cs);
    let tokens = lexer.run()?;
    proof {
        if empty_source(src@) {
            assert(toks_view(tokens@).len() == tokens@.len());
            assert(tokens@.last() == tokens@[0]);
        }
    }
    let ghost toks = tokens@;
    let mut p = Parser::new(tokens, budget);
    let r = p.parse_program();
    proof {
        if r is Ok {
            let ts = toks_view(toks);
            assert(ts[p.at()].kind == toks[p.at()].kind);
            assert(p.at() == ts.len() - 1);
        }
    }
    r
}

} // verus!
