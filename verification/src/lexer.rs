//! The lexer: source text -> tokens, each carrying the 1-based line/column of
//! its first character. Whitespace and `#` line comments are insignificant
//! except as separators.

use vstd::prelude::*;
use crate::chars::{
    chars_of, is_alphabetic, is_alphanumeric, is_digit, is_whitespace, spec_is_digit, string_of, unicode_alphabetic,
    unicode_alphanumeric, unicode_whitespace,
};
use crate::error::{Diagnostic, Stage};
use crate::num::{lemma_pow10_mono, lemma_pow10_pos, pow10, Num, MAX_MANTISSA};
use crate::span::Span;
use crate::text::{dec_value, owned, push_char, push_str};
use crate::token::{keyword, spec_keyword, StrPart, Token, TokenKind};

verus! {

/// The line/column after reading `c` at line/column `lc`.
pub open spec fn step_pos(lc: (nat, nat), c: char) -> (nat, nat) {
    if c == '\n' {
        (lc.0 + 1, 1)
    } else {
        (lc.0, lc.1 + 1)
    }
}

/// The 1-based line and column of the character at index `p` of `cs`.
pub open spec fn line_col(cs: Seq<char>, p: nat) -> (nat, nat)
    decreases p,
{
    if p == 0 || p > cs.len() {
        (1, 1)
    } else {
        step_pos(line_col(cs, (p - 1) as nat), cs[p - 1])
    }
}

/// The source position of index `p` of `cs`.
pub open spec fn span_at(cs: Seq<char>, p: nat) -> Span {
    Span { line: line_col(cs, p).0 as u32, col: line_col(cs, p).1 as u32 }
}

pub proof fn lemma_line_col_bounds(cs: Seq<char>, p: nat)
    ensures
        1 <= line_col(cs, p).0 <= p + 1,
        1 <= line_col(cs, p).1 <= p + 1,
    decreases p,
{
    if p > 0 && p <= cs.len() {
        lemma_line_col_bounds(cs, (p - 1) as nat);
    }
}

// ------------------------------------------------------------ the lexing rules

/// A segment of a glyph literal, as the rules describe it.
pub enum PartView {
    Lit(Seq<char>),
    Expr(Seq<char>),
}

pub open spec fn part_view(p: StrPart) -> PartView {
    match p {
        StrPart::Lit(s) => PartView::Lit(s@),
        StrPart::Expr(s) => PartView::Expr(s@),
    }
}

pub open spec fn parts_view(ps: Seq<StrPart>) -> Seq<PartView> {
    ps.map_values(|p: StrPart| part_view(p))
}

/// A token as the rules describe it: its kind, its text (an identifier's
/// name, otherwise empty), its number as mantissa and scale (zero unless a
/// well-formed number literal), its glyph segments and its position.
pub struct TokView {
    pub kind: TokenKind,
    pub text: Seq<char>,
    pub number: (nat, nat),
    pub parts: Seq<PartView>,
    pub span: Span,
}

pub open spec fn tok_view(t: Token) -> TokView {
    TokView {
        kind: t.kind,
        text: t.text@,
        number: (t.number.spec_mantissa(), t.number.spec_scale()),
        parts: parts_view(t.parts@),
        span: t.span,
    }
}

pub open spec fn toks_view(ts: Seq<Token>) -> Seq<TokView> {
    ts.map_values(|t: Token| tok_view(t))
}

/// A token without payload.
pub open spec fn plain(kind: TokenKind, span: Span) -> TokView {
    TokView { kind, text: Seq::empty(), number: (0, 0), parts: Seq::empty(), span }
}

/// Where a line comment that runs from `p` ends: at the next newline (not
/// consumed), or at the end of the text.
pub open spec fn line_end(cs: Seq<char>, p: nat) -> nat
    decreases cs.len() - p,
{
    if p >= cs.len() || cs[p as int] == '\n' {
        p
    } else {
        line_end(cs, p + 1)
    }
}

pub proof fn lemma_line_end(cs: Seq<char>, p: nat)
    ensures
        line_end(cs, p) >= p,
    decreases cs.len() - p,
{
    if !(p >= cs.len() || cs[p as int] == '\n') {
        lemma_line_end(cs, p + 1);
    }
}

/// The position after whitespace and `#` line comments from `p`.
pub open spec fn skip(cs: Seq<char>, p: nat) -> nat
    decreases cs.len() - p,
{
    if p >= cs.len() {
        p
    } else if unicode_whitespace(cs[p as int]) {
        skip(cs, p + 1)
    } else if cs[p as int] == '#' {
        let q = line_end(cs, p + 1);
        proof {
            lemma_line_end(cs, p + 1);
        }
        if q >= cs.len() {
            q
        } else {
            skip(cs, q)
        }
    } else {
        p
    }
}

pub proof fn lemma_skip(cs: Seq<char>, p: nat)
    ensures
        skip(cs, p) >= p,
        skip(cs, p) < cs.len() ==> !unicode_whitespace(cs[skip(cs, p) as int]) && cs[skip(cs, p) as int] != '#',
    decreases cs.len() - p,
{
    if p < cs.len() {
        if unicode_whitespace(cs[p as int]) {
            lemma_skip(cs, p + 1);
        } else if cs[p as int] == '#' {
            lemma_line_end(cs, p + 1);
            let q = line_end(cs, p + 1);
            if q < cs.len() {
                lemma_skip(cs, q);
            }
        }
    }
}

/// The digit value of a decimal digit.
pub open spec fn digit_value(c: char) -> u64 {
    ((c as u32) - 48) as u64
}

/// A `.` is part of a number only when a digit follows it.
pub open spec fn frac_dot(cs: Seq<char>, p: nat) -> bool {
    cs[p as int] == '.' && p + 1 < cs.len() && spec_is_digit(cs[p + 1int])
}

/// Scans a number literal from `p` (begun at `begin`), in the state
/// (mantissa, scale, digits kept, a `.` seen, a second `.` seen, more than 18
/// digits): digits accumulate (those past the 18th are only noted), and a
/// `.` followed by a digit (not first) starts the fraction. The result is
/// where the literal ends and the final state.
pub open spec fn num_scan(
    cs: Seq<char>,
    p: nat,
    begin: nat,
    st: (u64, u32, u32, bool, bool, bool),
) -> (nat, (u64, u32, u32, bool, bool, bool))
    decreases cs.len() - p,
{
    if p >= cs.len() {
        (p, st)
    } else if spec_is_digit(cs[p as int]) {
        if st.2 < 18 {
            num_scan(
                cs,
                p + 1,
                begin,
                (
                    (st.0 * 10 + digit_value(cs[p as int])) as u64,
                    if st.3 { (st.1 + 1) as u32 } else { st.1 },
                    (st.2 + 1) as u32,
                    st.3,
                    st.4,
                    st.5,
                ),
            )
        } else {
            num_scan(cs, p + 1, begin, (st.0, st.1, st.2, st.3, st.4, true))
        }
    } else if frac_dot(cs, p) && p > begin {
        num_scan(cs, p + 1, begin, (st.0, st.1, st.2, true, st.4 || st.3, st.5))
    } else {
        (p, st)
    }
}

pub proof fn lemma_num_scan(cs: Seq<char>, p: nat, begin: nat, st: (u64, u32, u32, bool, bool, bool))
    ensures
        num_scan(cs, p, begin, st).0 >= p,
        p <= cs.len() ==> num_scan(cs, p, begin, st).0 <= cs.len(),
        p < cs.len() && spec_is_digit(cs[p as int]) ==> num_scan(cs, p, begin, st).0 > p,
    decreases cs.len() - p,
{
    if p < cs.len() {
        if spec_is_digit(cs[p as int]) {
            if st.2 < 18 {
                lemma_num_scan(
                    cs,
                    p + 1,
                    begin,
                    (
                        (st.0 * 10 + digit_value(cs[p as int])) as u64,
                        if st.3 { (st.1 + 1) as u32 } else { st.1 },
                        (st.2 + 1) as u32,
                        st.3,
                        st.4,
                        st.5,
                    ),
                );
            } else {
                lemma_num_scan(cs, p + 1, begin, (st.0, st.1, st.2, st.3, st.4, true));
            }
        } else if frac_dot(cs, p) && p > begin {
            lemma_num_scan(cs, p + 1, begin, (st.0, st.1, st.2, true, st.4 || st.3, st.5));
        }
    }
}

proof fn lemma_dec_append(a: Seq<char>, b: Seq<char>)
    ensures
        dec_value(a + b) == dec_value(a) * pow10(b.len()) + dec_value(b),
    decreases b.len(),
{
    if b.len() == 0 {
        assert(a + b =~= a);
        assert(pow10(0) == 1);
        assert(dec_value(b) == 0);
        assert(dec_value(a) * 1 == dec_value(a));
    } else {
        lemma_dec_append(a, b.drop_last());
        let ab = a + b;
        assert(ab.drop_last() =~= a + b.drop_last());
        assert(ab.last() == b.last());
        let x = dec_value(a);
        let p = pow10((b.len() - 1) as nat);
        let y = dec_value(b.drop_last());
        let t = b.last() as int - '0' as int;
        assert(dec_value(ab) == dec_value(ab.drop_last()) * 10 + t);
        assert(dec_value(b) == y * 10 + t);
        assert(pow10(b.len()) == 10 * p);
        assert((x * p + y) * 10 + t == x * (10 * p) + (y * 10 + t)) by (nonlinear_arith);
    }
}

proof fn lemma_pow10_fits(n: nat)
    requires
        n <= 18,
    ensures
        pow10(n) <= 1_000_000_000_000_000_000,
{
    lemma_pow10_mono(n, 18);
    assert(pow10(18) == 1_000_000_000_000_000_000nat) by {
        reveal_with_fuel(pow10, 19);
    }
}

/// One more digit: the mantissa takes it on as its last decimal place.
proof fn lemma_scan_digit(cs: Seq<char>, m: nat, begin: nat, st: (u64, u32, u32, bool, bool, bool))
    requires
        m < cs.len(),
        spec_is_digit(cs[m as int]),
        st.2 < 18,
        st.1 <= st.2,
        st.0 < pow10(st.2 as nat),
    ensures
        num_scan(cs, m, begin, st) == num_scan(
            cs,
            m + 1,
            begin,
            (
                (st.0 * 10 + (cs[m as int] as int - '0' as int)) as u64,
                (if st.3 { st.1 + 1 } else { st.1 as int }) as u32,
                (st.2 + 1) as u32,
                st.3,
                st.4,
                st.5,
            ),
        ),
        st.0 * 10 + (cs[m as int] as int - '0' as int) < pow10((st.2 + 1) as nat),
{
    let c = cs[m as int];
    assert(digit_value(c) as int == c as int - '0' as int);
    assert(pow10((st.2 + 1) as nat) == 10 * pow10(st.2 as nat));
    let d = c as int - '0' as int;
    assert(0 <= d <= 9);
    assert(st.0 * 10 + d < 10 * pow10(st.2 as nat)) by (nonlinear_arith)
        requires
            st.0 < pow10(st.2 as nat),
            d <= 9,
    ;
}

/// Scanning a run of digits (at most 18 kept in all) accumulates their
/// decimal value into the mantissa, and into the scale once past the `.`.
proof fn lemma_digits_scan(cs: Seq<char>, p: nat, q: nat, begin: nat, st: (u64, u32, u32, bool, bool, bool))
    requires
        p <= q <= cs.len(),
        forall|i: int| p <= i < q ==> spec_is_digit(#[trigger] cs[i]),
        st.2 + (q - p) <= 18,
        st.1 <= st.2,
        st.0 < pow10(st.2 as nat),
    ensures
        num_scan(cs, p, begin, st) == num_scan(
            cs,
            q,
            begin,
            (
                (st.0 * pow10((q - p) as nat) + dec_value(cs.subrange(p as int, q as int))) as u64,
                (if st.3 { st.1 + (q - p) } else { st.1 as int }) as u32,
                (st.2 + (q - p)) as u32,
                st.3,
                st.4,
                st.5,
            ),
        ),
        st.0 * pow10((q - p) as nat) + dec_value(cs.subrange(p as int, q as int)) < pow10((st.2 + (q - p)) as nat),
        0 <= st.0 * pow10((q - p) as nat) + dec_value(cs.subrange(p as int, q as int)),
    decreases q - p,
{
    if p == q {
        assert(cs.subrange(p as int, q as int) =~= Seq::<char>::empty());
        assert(pow10(0) == 1);
        assert(st.0 * 1 == st.0);
    } else {
        let m = (q - 1) as nat;
        lemma_digits_scan(cs, p, m, begin, st);
        let v = st.0 * pow10((m - p) as nat) + dec_value(cs.subrange(p as int, m as int));
        let n = st.2 + (m - p);
        lemma_pow10_fits(n as nat);
        let sm: (u64, u32, u32, bool, bool, bool) = (
            v as u64,
            (if st.3 { st.1 + (m - p) } else { st.1 as int }) as u32,
            n as u32,
            st.3,
            st.4,
            st.5,
        );
        assert(0 <= v < 0x1_0000_0000_0000_0000);
        assert(sm.0 as int == v);
        assert(sm.2 as int == n);
        assert(sm.1 <= sm.2);
        lemma_scan_digit(cs, m, begin, sm);
        let c = cs[m as int];
        let d = c as int - '0' as int;
        let sub = cs.subrange(p as int, q as int);
        assert(sub.drop_last() =~= cs.subrange(p as int, m as int));
        assert(sub.last() == c);
        assert(dec_value(sub) == dec_value(cs.subrange(p as int, m as int)) * 10 + d);
        assert(pow10((q - p) as nat) == 10 * pow10((m - p) as nat));
        assert(st.0 * pow10((q - p) as nat) + dec_value(sub) == v * 10 + d) by (nonlinear_arith)
            requires
                pow10((q - p) as nat) == 10 * pow10((m - p) as nat),
                dec_value(sub) == dec_value(cs.subrange(p as int, m as int)) * 10 + d,
                v == st.0 * pow10((m - p) as nat) + dec_value(cs.subrange(p as int, m as int)),
        ;
    }
}

/// A number literal of up to 18 digits reads as the number its digits
/// spell: the mantissa is the decimal value of all its digits in order (the
/// `.` skipped) and the scale is the count of digits after the `.`; the
/// token ends where the digits do.
pub proof fn lemma_number_literal_value(cs: Seq<char>, p: nat, d: nat, q: nat)
    requires
        p < d <= q <= cs.len(),
        forall|i: int| p <= i < d ==> spec_is_digit(#[trigger] cs[i]),
        d < q ==> cs[d as int] == '.' && d + 1 < q,
        forall|i: int| d < i < q ==> spec_is_digit(#[trigger] cs[i]),
        (d - p) + (if d < q { q - d - 1 } else { 0int }) <= 18,
        q < cs.len() ==> !spec_is_digit(cs[q as int]) && !frac_dot(cs, q),
    ensures
        number_token(cs, p) matches Ok((t, e)) && e == q && t.kind == TokenKind::Number && (if d == q {
            t.number == (dec_value(cs.subrange(p as int, q as int)) as nat, 0nat)
        } else {
            t.number == (dec_value(cs.subrange(p as int, d as int) + cs.subrange(d + 1int, q as int)) as nat, (q - d
                - 1) as nat)
        }),
{
    assert(pow10(0) == 1);
    let st0: (u64, u32, u32, bool, bool, bool) = (0, 0, 0, false, false, false);
    lemma_digits_scan(cs, p, d, p, st0);
    let v1 = dec_value(cs.subrange(p as int, d as int));
    assert(0 * pow10((d - p) as nat) == 0) by (nonlinear_arith);
    lemma_pow10_fits((d - p) as nat);
    assert(v1 < pow10((d - p) as nat));
    let st1: (u64, u32, u32, bool, bool, bool) = (v1 as u64, 0, (d - p) as u32, false, false, false);
    assert(0 <= v1 < 0x1_0000_0000_0000_0000);
    assert(st1.0 as int == v1);
    assert(st1.2 as int == d - p);
    assert(num_scan(cs, p, p, st0) == num_scan(cs, d, p, st1));
    if d < q {
        assert(frac_dot(cs, d));
        assert(num_scan(cs, d, p, st1) == num_scan(cs, d + 1, p, (st1.0, st1.1, st1.2, true, false, st1.5)));
        let st2: (u64, u32, u32, bool, bool, bool) = (v1 as u64, 0, (d - p) as u32, true, false, false);
        lemma_digits_scan(cs, d + 1, q, p, st2);
        lemma_dec_append(cs.subrange(p as int, d as int), cs.subrange(d + 1int, q as int));
        lemma_pow10_fits((q - p - 1) as nat);
    }
}

/// A number literal at `p`: the token and where it ends, or the message
/// of its error.
pub open spec fn number_token(cs: Seq<char>, p: nat) -> Result<(TokView, nat), Seq<char>> {
    let r = num_scan(cs, p, p, (0, 0, 0, false, false, false));
    let end = if r.0 == p { p + 1 } else { r.0 };
    if r.1.5 {
        Err("number literal has more than 18 digits"@)
    } else {
        let number = if r.1.4 { (0nat, 0nat) } else { (r.1.0 as nat, r.1.1 as nat) };
        Ok((TokView { number, ..plain(TokenKind::Number, span_at(cs, p)) }, end))
    }
}

/// Where an identifier that continues at `p` ends.
pub open spec fn ident_end(cs: Seq<char>, p: nat) -> nat
    decreases cs.len() - p,
{
    if p < cs.len() && (cs[p as int] == '_' || unicode_alphanumeric(cs[p as int])) {
        ident_end(cs, p + 1)
    } else {
        p
    }
}

pub proof fn lemma_ident_end(cs: Seq<char>, p: nat)
    ensures
        ident_end(cs, p) >= p,
        p <= cs.len() ==> ident_end(cs, p) <= cs.len(),
    decreases cs.len() - p,
{
    if p < cs.len() && (cs[p as int] == '_' || unicode_alphanumeric(cs[p as int])) {
        lemma_ident_end(cs, p + 1);
    }
}

/// An identifier or keyword starting at `p`.
pub open spec fn ident_token(cs: Seq<char>, p: nat) -> (TokView, nat) {
    let end = ident_end(cs, p + 1);
    let text = cs.subrange(p as int, end as int);
    match spec_keyword(text) {
        Some(k) => (plain(k, span_at(cs, p)), end),
        None => (TokView { text, ..plain(TokenKind::Ident, span_at(cs, p)) }, end),
    }
}

pub open spec fn unterminated_glyph() -> Seq<char> {
    "unterminated glyph literal (missing closing '\"')"@
}

pub open spec fn unterminated_interpolation() -> Seq<char> {
    "unterminated interpolation '${...}' in glyph"@
}

/// The character an escape `\e` stands for.
pub open spec fn escaped(e: char) -> char {
    if e == 'n' {
        '\n'
    } else if e == 't' {
        '\t'
    } else {
        e
    }
}

/// Scans the source of a `${...}` interpolation from `p` at brace depth
/// `depth`, with `expr` read so far: where it ends (after its closing `}`)
/// and its text, or the error.
pub open spec fn interp_scan(cs: Seq<char>, p: nat, depth: nat, expr: Seq<char>) -> Result<(nat, Seq<char>), Seq<char>>
    decreases cs.len() - p,
{
    if p >= cs.len() || cs[p as int] == '\n' {
        Err(unterminated_interpolation())
    } else if cs[p as int] == '{' {
        interp_scan(cs, p + 1, depth + 1, expr.push('{'))
    } else if cs[p as int] == '}' {
        if depth <= 1 {
            Ok((p + 1, expr))
        } else {
            interp_scan(cs, p + 1, (depth - 1) as nat, expr.push('}'))
        }
    } else {
        interp_scan(cs, p + 1, depth, expr.push(cs[p as int]))
    }
}

pub proof fn lemma_interp_scan(cs: Seq<char>, p: nat, depth: nat, expr: Seq<char>)
    ensures
        interp_scan(cs, p, depth, expr) matches Ok((q, _)) ==> q > p && q <= cs.len(),
    decreases cs.len() - p,
{
    if !(p >= cs.len() || cs[p as int] == '\n') {
        if cs[p as int] == '{' {
            lemma_interp_scan(cs, p + 1, depth + 1, expr.push('{'));
        } else if cs[p as int] == '}' {
            if depth > 1 {
                lemma_interp_scan(cs, p + 1, (depth - 1) as nat, expr.push('}'));
            }
        } else {
            lemma_interp_scan(cs, p + 1, depth, expr.push(cs[p as int]));
        }
    }
}

/// Scans the body of a glyph literal from `p`, in the state (segments so
/// far, literal text pending, whether that text is empty): where it ends
/// (after the closing quote) and the final state, or the error.
pub open spec fn str_scan(
    cs: Seq<char>,
    p: nat,
    parts: Seq<PartView>,
    lit: Seq<char>,
    lit_empty: bool,
) -> Result<(nat, Seq<PartView>, Seq<char>, bool), Seq<char>>
    decreases cs.len() - p,
{
    if p >= cs.len() || cs[p as int] == '\n' {
        Err(unterminated_glyph())
    } else if cs[p as int] == '"' {
        Ok((p + 1, parts, lit, lit_empty))
    } else if cs[p as int] == '\\' {
        if p + 1 >= cs.len() {
            Err("unterminated escape in glyph"@)
        } else {
            str_scan(cs, p + 2, parts, lit.push(escaped(cs[p + 1int])), false)
        }
    } else if cs[p as int] == '$' && p + 1 < cs.len() && cs[p + 1int] == '{' {
        let parts1 = if !lit_empty { parts.push(PartView::Lit(lit)) } else { parts };
        let lit1 = if !lit_empty { Seq::empty() } else { lit };
        match interp_scan(cs, p + 2, 1, Seq::empty()) {
            Ok((q, expr)) => {
                proof {
                    lemma_interp_scan(cs, p + 2, 1, Seq::empty());
                }
                str_scan(cs, q, parts1.push(PartView::Expr(expr)), lit1, true)
            },
            Err(m) => Err(m),
        }
    } else {
        str_scan(cs, p + 1, parts, lit.push(cs[p as int]), false)
    }
}

/// In a glyph literal, `\t` stands for the tab character (U+0009) and `\n`
/// for the newline (U+000A); any other escaped character stands for itself.
/// Scanning an escape adds that character to the pending text and goes on
/// after the escape.
pub proof fn lemma_glyph_escapes(cs: Seq<char>, p: nat, parts: Seq<PartView>, lit: Seq<char>, lit_empty: bool)
    requires
        p + 1 < cs.len(),
        cs[p as int] == '\\',
    ensures
        cs[p + 1int] == 't' ==> str_scan(cs, p, parts, lit, lit_empty) == str_scan(
            cs,
            p + 2,
            parts,
            lit.push('\u{9}'),
            false,
        ),
        cs[p + 1int] == 'n' ==> str_scan(cs, p, parts, lit, lit_empty) == str_scan(
            cs,
            p + 2,
            parts,
            lit.push('\u{a}'),
            false,
        ),
        cs[p + 1int] != 't' && cs[p + 1int] != 'n' ==> str_scan(cs, p, parts, lit, lit_empty) == str_scan(
            cs,
            p + 2,
            parts,
            lit.push(cs[p + 1int]),
            false,
        ),
{
}

pub proof fn lemma_str_scan(cs: Seq<char>, p: nat, parts: Seq<PartView>, lit: Seq<char>, lit_empty: bool)
    ensures
        str_scan(cs, p, parts, lit, lit_empty) matches Ok((q, _, _, _)) ==> q > p && q <= cs.len(),
    decreases cs.len() - p,
{
    if !(p >= cs.len() || cs[p as int] == '\n') && cs[p as int] != '"' {
        if cs[p as int] == '\\' {
            if p + 1 < cs.len() {
                lemma_str_scan(cs, p + 2, parts, lit.push(escaped(cs[p + 1int])), false);
            }
        } else if cs[p as int] == '$' && p + 1 < cs.len() && cs[p + 1int] == '{' {
            let parts1 = if !lit_empty { parts.push(PartView::Lit(lit)) } else { parts };
            let lit1 = if !lit_empty { Seq::empty() } else { lit };
            lemma_interp_scan(cs, p + 2, 1, Seq::empty());
            if let Ok((q, expr)) = interp_scan(cs, p + 2, 1, Seq::empty()) {
                lemma_str_scan(cs, q, parts1.push(PartView::Expr(expr)), lit1, true);
            }
        } else {
            lemma_str_scan(cs, p + 1, parts, lit.push(cs[p as int]), false);
        }
    }
}

/// A glyph literal whose opening quote is at `p`: its segments (a trailing
/// literal segment when text is pending, or when there is no segment at
/// all) and where it ends, or the error.
pub open spec fn string_token(cs: Seq<char>, p: nat) -> Result<(TokView, nat), Seq<char>> {
    match str_scan(cs, p + 1, Seq::empty(), Seq::empty(), true) {
        Ok((q, parts, lit, lit_empty)) => {
            let all = if !lit_empty || parts.len() == 0 { parts.push(PartView::Lit(lit)) } else { parts };
            Ok((TokView { parts: all, ..plain(TokenKind::Str, span_at(cs, p)) }, q))
        },
        Err(m) => Err(m),
    }
}

/// The character at `p + 1`, if there is one.
pub open spec fn next_char(cs: Seq<char>, p: nat) -> Option<char> {
    if p + 1 < cs.len() {
        Some(cs[p + 1int])
    } else {
        None
    }
}

/// Punctuation or an operator at `p`: its kind and where it ends, or the
/// error for a character that starts no token.
pub open spec fn symbol_token(cs: Seq<char>, p: nat) -> Result<(TokenKind, nat), Seq<char>> {
    let c = cs[p as int];
    let n = next_char(cs, p);
    if c == '(' {
        Ok((TokenKind::LParen, p + 1))
    } else if c == ')' {
        Ok((TokenKind::RParen, p + 1))
    } else if c == '{' {
        Ok((TokenKind::LBrace, p + 1))
    } else if c == '}' {
        Ok((TokenKind::RBrace, p + 1))
    } else if c == '[' {
        Ok((TokenKind::LBracket, p + 1))
    } else if c == ']' {
        Ok((TokenKind::RBracket, p + 1))
    } else if c == ',' {
        Ok((TokenKind::Comma, p + 1))
    } else if c == ':' {
        Ok((TokenKind::Colon, p + 1))
    } else if c == '+' {
        Ok((TokenKind::Plus, p + 1))
    } else if c == '-' {
        Ok((TokenKind::Minus, p + 1))
    } else if c == '*' {
        Ok((TokenKind::Star, p + 1))
    } else if c == '/' {
        Ok((TokenKind::Slash, p + 1))
    } else if c == '.' {
        if n == Some('.') { Ok((TokenKind::DotDot, p + 2)) } else { Ok((TokenKind::Dot, p + 1)) }
    } else if c == '=' {
        if n == Some('=') {
            Ok((TokenKind::EqEq, p + 2))
        } else if n == Some('>') {
            Ok((TokenKind::FatArrow, p + 2))
        } else {
            Ok((TokenKind::Eq, p + 1))
        }
    } else if c == '<' {
        if n == Some('=') { Ok((TokenKind::Le, p + 2)) } else { Ok((TokenKind::Lt, p + 1)) }
    } else if c == '>' {
        if n == Some('=') { Ok((TokenKind::Ge, p + 2)) } else { Ok((TokenKind::Gt, p + 1)) }
    } else if c == '!' {
        if n == Some('=') { Ok((TokenKind::Ne, p + 2)) } else { Err("unexpected character '!'"@) }
    } else {
        Err("unexpected character '"@ + seq![c] + "'"@)
    }
}

/// The token that starts at `p` (a character that is neither whitespace
/// nor a comment): a number at a digit, an identifier at `_` or a letter,
/// a glyph at `"`, punctuation otherwise.
pub open spec fn token_at(cs: Seq<char>, p: nat) -> Result<(TokView, nat), Seq<char>> {
    let c = cs[p as int];
    if spec_is_digit(c) {
        number_token(cs, p)
    } else if c == '_' || unicode_alphabetic(c) {
        Ok(ident_token(cs, p))
    } else if c == '"' {
        string_token(cs, p)
    } else {
        match symbol_token(cs, p) {
            Ok((k, q)) => Ok((plain(k, span_at(cs, p)), q)),
            Err(m) => Err(m),
        }
    }
}

pub proof fn lemma_token_at(cs: Seq<char>, p: nat)
    requires
        p < cs.len(),
    ensures
        token_at(cs, p) matches Ok((_, q)) ==> q > p && q <= cs.len(),
{
    let c = cs[p as int];
    if spec_is_digit(c) {
        lemma_num_scan(cs, p, p, (0, 0, 0, false, false, false));
    } else if c == '_' || unicode_alphabetic(c) {
        lemma_ident_end(cs, p + 1);
    } else if c == '"' {
        lemma_str_scan(cs, p + 1, Seq::empty(), Seq::empty(), true);
    }
}

/// The tokens of `cs` from position `p`, ending with the one `Eof`, or
/// the first error with where its token starts.
pub open spec fn lex_spec(cs: Seq<char>, p: nat) -> Result<Seq<TokView>, (Seq<char>, Span)>
    decreases cs.len() - p,
{
    let q = skip(cs, p);
    proof {
        lemma_skip(cs, p);
    }
    if q >= cs.len() {
        Ok(seq![plain(TokenKind::Eof, span_at(cs, q))])
    } else {
        match token_at(cs, q) {
            Ok((t, r)) => {
                proof {
                    lemma_token_at(cs, q);
                }
                match lex_spec(cs, r) {
                    Ok(rest) => Ok(seq![t] + rest),
                    Err(e) => Err(e),
                }
            },
            Err(m) => Err((m, span_at(cs, q))),
        }
    }
}

/// `ts` followed by the outcome `r`.
pub open spec fn prefixed(ts: Seq<TokView>, r: Result<Seq<TokView>, (Seq<char>, Span)>) -> Result<
    Seq<TokView>,
    (Seq<char>, Span),
> {
    match r {
        Ok(rest) => Ok(ts + rest),
        Err(e) => Err(e),
    }
}

/// Scans a source text character by character, tracking the position.
pub struct Lexer {
    chars: Vec<char>,
    pos: usize,
    line: u32,
    col: u32,
}

impl Lexer {
    pub closed spec fn wf(&self) -> bool {
        &&& self.pos <= self.chars.len()
        &&& self.chars.len() < 0xFFFF_FFFFusize
        &&& line_col(self.chars@, self.pos as nat) == (self.line as nat, self.col as nat)
    }

    pub closed spec fn source(&self) -> Seq<char> {
        self.chars@
    }

    pub closed spec fn position(&self) -> nat {
        self.pos as nat
    }

    pub fn new(src: &str) -> (l: Lexer)
        requires
            src@.len() < 0xFFFF_FFFF,
        ensures
            l.wf(),
            l.source() == src@,
            l.position() == 0,
    {
        let chars = chars_of(src);
        Lexer { chars, pos: 0, line: 1, col: 1 }
    }

    pub fn from_chars(chars: Vec<char>) -> (l: Lexer)
        requires
            chars@.len() < 0xFFFF_FFFF,
        ensures
            l.wf(),
            l.source() == chars@,
            l.position() == 0,
    {
        Lexer { chars, pos: 0, line: 1, col: 1 }
    }

    /// The position of the next character.
    pub fn here(&self) -> (s: Span)
        requires
            self.wf(),
        ensures
            s == span_at(self.source(), self.position()),
    {
        Span::new(self.line, self.col)
    }

    pub open spec fn spec_peek(&self) -> Option<char> {
        if self.position() < self.source().len() {
            Some(self.source()[self.position() as int])
        } else {
            None
        }
    }

    pub fn peek(&self) -> (r: Option<char>)
        requires
            self.wf(),
        ensures
            r == self.spec_peek(),
    {
        if self.pos < self.chars.len() {
            Some(self.chars[self.pos])
        } else {
            None
        }
    }

    pub fn peek2(&self) -> (r: Option<char>)
        requires
            self.wf(),
        ensures
            r == (if self.position() + 1 < self.source().len() {
                Some(self.source()[self.position() + 1int])
            } else {
                None
            }),
    {
        if self.pos + 1 < self.chars.len() {
            Some(self.chars[self.pos + 1])
        } else {
            None
        }
    }

    /// Consumes the next character, if any.
    pub fn bump(&mut self) -> (r: Option<char>)
        requires
            old(self).wf(),
        ensures
            final(self).wf(),
            final(self).source() == old(self).source(),
            r == old(self).spec_peek(),
            r is Some ==> final(self).position() == old(self).position() + 1,
            r is None ==> final(self).position() == old(self).position(),
    {
        if self.pos >= self.chars.len() {
            return None;
        }
        let c = self.chars[self.pos];
        proof {
            lemma_line_col_bounds(self.chars@, self.pos as nat);
        }
        self.pos = self.pos + 1;
        if c == '\n' {
            self.line = self.line + 1;
            self.col = 1;
        } else {
            self.col = self.col + 1;
        }
        Some(c)
    }

    /// Skips whitespace and `#` comments.
    pub fn skip_trivia(&mut self)
        requires
            old(self).wf(),
        ensures
            final(self).wf(),
            final(self).source() == old(self).source(),
            final(self).position() >= old(self).position(),
            final(self).position() == skip(old(self).source(), old(self).position()),
    {
        loop
            invariant
                self.wf(),
                self.source() == old(self).source(),
                self.position() >= old(self).position(),
                skip(old(self).source(), old(self).position()) == skip(self.source(), self.position()),
            ensures
                self.wf(),
                self.source() == old(self).source(),
                self.position() >= old(self).position(),
                self.position() == skip(old(self).source(), old(self).position()),
            decreases self.source().len() - self.position(),
        {
            match self.peek() {
                Some(c) => {
                    if is_whitespace(c) {
                        self.bump();
                    } else if c == '#' {
                        let ghost before = self.position();
                        self.bump();
                        loop
                            invariant
                                self.wf(),
                                self.source() == old(self).source(),
                                self.position() > before,
                                before >= old(self).position(),
                                skip(old(self).source(), old(self).position()) == skip(self.source(), before),
                                before < self.source().len() && self.source()[before as int] == '#',
                                !unicode_whitespace(self.source()[before as int]),
                                line_end(self.source(), before + 1) == line_end(self.source(), self.position()),
                            ensures
                                self.wf(),
                                self.source() == old(self).source(),
                                self.position() > before,
                                self.position() == line_end(self.source(), before + 1),
                            decreases self.source().len() - self.position(),
                        {
                            match self.peek() {
                                Some(d) => {
                                    if d == '\n' {
                                        break;
                                    }
                                    self.bump();
                                },
                                None => {
                                    break;
                                },
                            }
                        }
                        if self.peek().is_none() {
                            break;
                        }
                    } else {
                        break;
                    }
                },
                None => {
                    break;
                },
            }
        }
    }

    /// A number literal: digits with at most one fractional part (a `.` is
    /// part of the number only when a digit follows, so `0..10` is a range).
    fn lex_number(&mut self, start: Span) -> (r: Result<Token, Diagnostic>)
        requires
            old(self).wf(),
            old(self).spec_peek() is Some,
            start == span_at(old(self).source(), old(self).position()),
        ensures
            final(self).wf(),
            final(self).source() == old(self).source(),
            final(self).position() > old(self).position(),
            r is Ok ==> r->Ok_0.kind == TokenKind::Number && r->Ok_0.span == start,
            r is Err ==> r->Err_0.stage == Stage::Lex,
            match number_token(old(self).source(), old(self).position()) {
                Ok((tv, end)) => r is Ok && tok_view(r->Ok_0) == tv && final(self).position() == end,
                Err(m) => r is Err && r->Err_0.message@ == m && r->Err_0.span == Some(start),
            },
    {
        let mut m: u64 = 0;
        let mut scale: u32 = 0;
        let mut digits: u32 = 0;
        let mut seen_dot = false;
        let mut malformed = false;
        let mut too_long = false;
        let ghost p0 = self.position();
        let begin = self.pos;
        loop
            invariant
                self.wf(),
                self.source() == old(self).source(),
                self.position() >= p0,
                p0 == old(self).position(),
                begin == p0,
                m <= MAX_MANTISSA,
                digits <= 18,
                scale <= digits,
                m < crate::num::pow10(digits as nat),
                num_scan(self.source(), p0, p0, (0, 0, 0, false, false, false)) == num_scan(
                    self.source(),
                    self.position(),
                    p0,
                    (m, scale, digits, seen_dot, malformed, too_long),
                ),
            ensures
                self.wf(),
                self.source() == old(self).source(),
                self.position() >= p0,
                p0 == old(self).position(),
                begin == p0,
                m <= MAX_MANTISSA,
                scale <= digits,
                digits <= 18,
                num_scan(self.source(), p0, p0, (0, 0, 0, false, false, false)) == (
                    self.position(),
                    (m, scale, digits, seen_dot, malformed, too_long),
                ),
            decreases self.source().len() - self.position(),
        {
            match self.peek() {
                Some(c) => {
                    let is_frac_dot = c == '.' && match self.peek2() {
                        Some(d) => is_digit(d),
                        None => false,
                    };
                    if is_digit(c) {
                        if digits < 18 {
                            let d: u64 = ((c as u32) - 48) as u64;
                            proof {
                                crate::num::lemma_pow10_mono((digits + 1) as nat, 18);
                                assert(crate::num::pow10(18) == 1_000_000_000_000_000_000nat) by {
                                    reveal_with_fuel(crate::num::pow10, 19);
                                }
                                assert(m * 10 + d < crate::num::pow10((digits + 1) as nat)) by (nonlinear_arith)
                                    requires
                                        m < crate::num::pow10(digits as nat),
                                        d < 10,
                                        crate::num::pow10((digits + 1) as nat) == 10 * crate::num::pow10(digits as nat),
                                ;
                            }
                            m = m * 10 + d;
                            digits = digits + 1;
                            if seen_dot {
                                scale = scale + 1;
                            }
                        } else {
                            too_long = true;
                        }
                        self.bump();
                    } else if is_frac_dot && self.pos > begin {
                        if seen_dot {
                            malformed = true;
                        }
                        seen_dot = true;
                        self.bump();
                    } else {
                        break;
                    }
                },
                None => {
                    break;
                },
            }
        }
        if self.pos == begin {
            self.bump();
        }
        if too_long {
            return Err(Diagnostic::lex(owned("number literal has more than 18 digits"), start));
        }
        let mut t = Token::new(TokenKind::Number, start);
        if !malformed {
            t.number = Num::from_parts(m, scale);
        }
        proof {
            assert(parts_view(t.parts@) =~= Seq::<PartView>::empty());
            let r = num_scan(self.source(), p0, p0, (0, 0, 0, false, false, false));
            let number = if r.1.4 { (0nat, 0nat) } else { (r.1.0 as nat, r.1.1 as nat) };
            assert(tok_view(t) == TokView { number, ..plain(TokenKind::Number, start) });
        }
        Ok(t)
    }

    /// An identifier or keyword: `_` or a letter, then `_` or letters/digits.
    fn lex_ident(&mut self, start: Span) -> (r: Token)
        requires
            old(self).wf(),
            old(self).spec_peek() is Some,
            start == span_at(old(self).source(), old(self).position()),
        ensures
            final(self).wf(),
            final(self).source() == old(self).source(),
            final(self).position() > old(self).position(),
            r.span == start,
            r.kind != TokenKind::Eof,
            (tok_view(r), final(self).position() as nat) == ident_token(old(self).source(), old(self).position()),
    {
        let begin = self.pos;
        self.bump();
        loop
            invariant
                self.wf(),
                self.source() == old(self).source(),
                self.position() > old(self).position(),
                begin == old(self).position(),
                ident_end(self.source(), (begin + 1) as nat) == ident_end(self.source(), self.position()),
            ensures
                self.wf(),
                self.source() == old(self).source(),
                self.position() > old(self).position(),
                begin == old(self).position(),
                self.position() == ident_end(self.source(), (begin + 1) as nat),
            decreases self.source().len() - self.position(),
        {
            match self.peek() {
                Some(c) => {
                    if c == '_' || is_alphanumeric(c) {
                        self.bump();
                    } else {
                        break;
                    }
                },
                None => {
                    break;
                },
            }
        }
        let text = string_of(&self.chars, begin, self.pos);
        match keyword(text.as_str()) {
            Some(k) => {
                let t = Token::new(k, start);
                proof {
                    assert(parts_view(t.parts@) =~= Seq::<PartView>::empty());
                    assert(tok_view(t) == plain(k, start));
                }
                t
            },
            None => {
                let mut t = Token::new(TokenKind::Ident, start);
                t.text = text;
                proof {
                    assert(parts_view(t.parts@) =~= Seq::<PartView>::empty());
                }
                t
            },
        }
    }

    /// A glyph literal with escapes and `${...}` interpolations.
    fn lex_string(&mut self, start: Span) -> (r: Result<Token, Diagnostic>)
        requires
            old(self).wf(),
            old(self).spec_peek() == Some('"'),
            start == span_at(old(self).source(), old(self).position()),
        ensures
            final(self).wf(),
            final(self).source() == old(self).source(),
            final(self).position() > old(self).position(),
            r is Ok ==> r->Ok_0.kind == TokenKind::Str && r->Ok_0.span == start,
            r is Err ==> r->Err_0.stage == Stage::Lex,
            match string_token(old(self).source(), old(self).position()) {
                Ok((tv, end)) => r is Ok && tok_view(r->Ok_0) == tv && final(self).position() == end,
                Err(m) => r is Err && r->Err_0.message@ == m && r->Err_0.span == Some(start),
            },
    {
        let ghost cs = self.source();
        let ghost overall = str_scan(cs, old(self).position() + 1, Seq::empty(), Seq::empty(), true);
        self.bump();
        let mut parts: Vec<StrPart> = Vec::new();
        let mut lit = String::new();
        let mut lit_empty = true;
        assert(parts_view(parts@) =~= Seq::<PartView>::empty());
        loop
            invariant_except_break
                overall == str_scan(cs, self.position(), parts_view(parts@), lit@, lit_empty),
            invariant
                self.wf(),
                self.source() == old(self).source(),
                self.position() > old(self).position(),
                cs == self.source(),
                overall == str_scan(cs, old(self).position() + 1, Seq::empty(), Seq::empty(), true),
            ensures
                self.wf(),
                self.source() == old(self).source(),
                self.position() > old(self).position(),
                overall == Ok::<(nat, Seq<PartView>, Seq<char>, bool), Seq<char>>(
                    (self.position() as nat, parts_view(parts@), lit@, lit_empty),
                ),
            decreases self.source().len() - self.position(),
        {
            match self.peek() {
                None => {
                    return Err(
                        Diagnostic::lex(
                            owned("unterminated glyph literal (missing closing '\"')"),
                            start,
                        ),
                    );
                },
                Some(c) => {
                    if c == '\n' {
                        return Err(
                            Diagnostic::lex(
                                owned("unterminated glyph literal (missing closing '\"')"),
                                start,
                            ),
                        );
                    } else if c == '"' {
                        self.bump();
                        break;
                    } else if c == '\\' {
                        self.bump();
                        match self.bump() {
                            Some(e) => {
                                let out = if e == 'n' {
                                    '\n'
                                } else if e == 't' {
                                    '\t'
                                } else {
                                    e
                                };
                                push_char(&mut lit, out);
                                lit_empty = false;
                            },
                            None => {
                                return Err(
                                    Diagnostic::lex(owned("unterminated escape in glyph"), start),
                                );
                            },
                        }
                    } else if c == '$' && matches!(self.peek2(), Some('{')) {
                        let ghost p_at = self.position();
                        let ghost parts0 = parts_view(parts@);
                        let ghost lit0 = lit@;
                        if !lit_empty {
                            let ghost before = parts@;
                            parts.push(StrPart::Lit(lit));
                            assert(parts_view(parts@) =~= parts_view(before).push(PartView::Lit(lit0)));
                            lit = String::new();
                            lit_empty = true;
                        }
                        assert(lit_empty);
                        let ghost iter_start = self.position();
                        self.bump();
                        self.bump();
                        let mut depth: u64 = 1;
                        let mut expr = String::new();
                        assert(expr@ =~= Seq::<char>::empty());
                        loop
                            invariant_except_break
                                overall == match interp_scan(cs, self.position(), depth as nat, expr@) {
                                    Ok((q, e)) => str_scan(cs, q, parts_view(parts@).push(PartView::Expr(e)), lit@, true),
                                    Err(m) => Err(m),
                                },
                            invariant
                                self.wf(),
                                self.source() == old(self).source(),
                                self.position() > iter_start,
                                iter_start > old(self).position(),
                                depth >= 1,
                                depth <= self.position(),
                                cs == self.source(),
                                overall == str_scan(cs, old(self).position() + 1, Seq::empty(), Seq::empty(), true),
                            ensures
                                self.wf(),
                                self.source() == old(self).source(),
                                self.position() > iter_start,
                                iter_start > old(self).position(),
                                cs == self.source(),
                                overall == str_scan(cs, self.position(), parts_view(parts@).push(PartView::Expr(expr@)), lit@, true),
                            decreases self.source().len() - self.position(),
                        {
                            match self.peek() {
                                None => {
                                    return Err(
                                        Diagnostic::lex(
                                            owned("unterminated interpolation '${...}' in glyph"),
                                            start,
                                        ),
                                    );
                                },
                                Some(d) => {
                                    if d == '\n' {
                                        return Err(
                                            Diagnostic::lex(
                                                owned(
                                                    "unterminated interpolation '${...}' in glyph",
                                                ),
                                                start,
                                            ),
                                        );
                                    } else if d == '{' {
                                        depth = depth + 1;
                                        push_char(&mut expr, '{');
                                        self.bump();
                                    } else if d == '}' {
                                        self.bump();
                                        if depth == 1 {
                                            break;
                                        }
                                        depth = depth - 1;
                                        push_char(&mut expr, '}');
                                    } else {
                                        push_char(&mut expr, d);
                                        self.bump();
                                    }
                                },
                            }
                        }
                        let ghost before = parts@;
                        let ghost ex = expr@;
                        parts.push(StrPart::Expr(expr));
                        assert(parts_view(parts@) =~= parts_view(before).push(PartView::Expr(ex)));
                    } else {
                        push_char(&mut lit, c);
                        lit_empty = false;
                        self.bump();
                    }
                },
            }
        }
        let ghost pv = parts_view(parts@);
        let ghost lv = lit@;
        if !lit_empty || parts.len() == 0 {
            let ghost before = parts@;
            parts.push(StrPart::Lit(lit));
            assert(parts_view(parts@) =~= parts_view(before).push(PartView::Lit(lv)));
        }
        let mut t = Token::new(TokenKind::Str, start);
        t.parts = parts;
        proof {
            let all = if !lit_empty || pv.len() == 0 { pv.push(PartView::Lit(lv)) } else { pv };
            assert(parts_view(t.parts@) == all);
            assert(tok_view(t) == TokView { parts: all, ..plain(TokenKind::Str, start) });
        }
        Ok(t)
    }

    /// Punctuation and operators.
    fn lex_symbol(&mut self, start: Span) -> (r: Result<Token, Diagnostic>)
        requires
            old(self).wf(),
            old(self).spec_peek() is Some,
        ensures
            final(self).wf(),
            final(self).source() == old(self).source(),
            final(self).position() > old(self).position(),
            r is Ok ==> r->Ok_0.span == start && r->Ok_0.kind != TokenKind::Eof,
            r is Err ==> r->Err_0.stage == Stage::Lex,
            match symbol_token(old(self).source(), old(self).position()) {
                Ok((k, end)) => r is Ok && tok_view(r->Ok_0) == plain(k, start) && final(self).position() == end,
                Err(m) => r is Err && r->Err_0.message@ == m && r->Err_0.span == Some(start),
            },
    {
        let c = match self.bump() {
            Some(c) => c,
            None => {
                return Err(Diagnostic::lex(owned("unexpected end of input"), start));
            },
        };
        let kind = if c == '(' {
            TokenKind::LParen
        } else if c == ')' {
            TokenKind::RParen
        } else if c == '{' {
            TokenKind::LBrace
        } else if c == '}' {
            TokenKind::RBrace
        } else if c == '[' {
            TokenKind::LBracket
        } else if c == ']' {
            TokenKind::RBracket
        } else if c == ',' {
            TokenKind::Comma
        } else if c == ':' {
            TokenKind::Colon
        } else if c == '+' {
            TokenKind::Plus
        } else if c == '-' {
            TokenKind::Minus
        } else if c == '*' {
            TokenKind::Star
        } else if c == '/' {
            TokenKind::Slash
        } else if c == '.' {
            if matches!(self.peek(), Some('.')) {
                self.bump();
                TokenKind::DotDot
            } else {
                TokenKind::Dot
            }
        } else if c == '=' {
            if matches!(self.peek(), Some('=')) {
                self.bump();
                TokenKind::EqEq
            } else if matches!(self.peek(), Some('>')) {
                self.bump();
                TokenKind::FatArrow
            } else {
                TokenKind::Eq
            }
        } else if c == '<' {
            if matches!(self.peek(), Some('=')) {
                self.bump();
                TokenKind::Le
            } else {
                TokenKind::Lt
            }
        } else if c == '>' {
            if matches!(self.peek(), Some('=')) {
                self.bump();
                TokenKind::Ge
            } else {
                TokenKind::Gt
            }
        } else if c == '!' {
            if matches!(self.peek(), Some('=')) {
                self.bump();
                TokenKind::Ne
            } else {
                return Err(Diagnostic::lex(owned("unexpected character '!'"), start));
            }
        } else {
            let mut msg = owned("unexpected character '");
            push_char(&mut msg, c);
            push_str(&mut msg, "'");
            return Err(Diagnostic::lex(msg, start));
        };
        let t = Token::new(kind, start);
        assert(parts_view(t.parts@) =~= Seq::<PartView>::empty());
        Ok(t)
    }

    /// Lexes the whole source.
    pub fn run(&mut self) -> (r: Result<Vec<Token>, Diagnostic>)
        requires
            old(self).wf(),
        ensures
            r is Ok ==> tokens_well_formed(r->Ok_0@, old(self).source()),
            r is Err ==> r->Err_0.stage == Stage::Lex,
            match lex_spec(old(self).source(), old(self).position()) {
                Ok(ts) => r is Ok && toks_view(r->Ok_0@) == ts,
                Err((m, sp)) => r is Err && r->Err_0.message@ == m && r->Err_0.span == Some(sp),
            },
    {
        let ghost cs = self.source();
        let mut tokens: Vec<Token> = Vec::new();
        assert(toks_view(tokens@) =~= Seq::<TokView>::empty());
        assert(prefixed(Seq::empty(), lex_spec(cs, self.position())) =~= lex_spec(cs, self.position())) by {
            match lex_spec(cs, self.position()) {
                Ok(rest) => assert(Seq::<TokView>::empty() + rest =~= rest),
                Err(e) => {},
            }
        }
        loop
            invariant
                self.wf(),
                self.source() == old(self).source(),
                cs == self.source(),
                lex_spec(cs, old(self).position()) == prefixed(toks_view(tokens@), lex_spec(cs, self.position())),
                forall|i: int|
                    0 <= i < tokens.len() ==> (#[trigger] tokens@[i]).kind != TokenKind::Eof,
                forall|i: int|
                    0 <= i < tokens.len() ==> exists|p: nat|
                        p <= self.source().len() && (#[trigger] tokens@[i]).span == span_at(
                            self.source(),
                            p,
                        ),
            decreases self.source().len() - self.position(),
        {
            let ghost p_before = self.position();
            self.skip_trivia();
            let start = self.here();
            let ghost p = self.position();
            proof {
                lemma_skip(cs, p_before);
            }
            let c = match self.peek() {
                None => {
                    let ghost before = tokens@;
                    let eof = Token::new(TokenKind::Eof, start);
                    proof {
                        assert(parts_view(eof.parts@) =~= Seq::<PartView>::empty());
                        assert(tok_view(eof) == plain(TokenKind::Eof, span_at(cs, p)));
                    }
                    tokens.push(eof);
                    assert(tokens@.last().span == span_at(self.source(), p));
                    assert(toks_view(tokens@) =~= toks_view(before) + seq![plain(TokenKind::Eof, span_at(cs, p))]);
                    return Ok(tokens);
                },
                Some(c) => c,
            };
            let t = if is_digit(c) {
                self.lex_number(start)
            } else if c == '_' || is_alphabetic(c) {
                Ok(self.lex_ident(start))
            } else if c == '"' {
                self.lex_string(start)
            } else {
                self.lex_symbol(start)
            };
            match t {
                Ok(t) => {
                    let ghost before = tokens@;
                    let ghost tv = tok_view(t);
                    tokens.push(t);
                    assert(tokens@.last().span == span_at(self.source(), p));
                    proof {
                        lemma_token_at(cs, p);
                        assert(token_at(cs, p) == Ok::<(TokView, nat), Seq<char>>((tv, self.position() as nat)));
                        assert(toks_view(tokens@) =~= toks_view(before) + seq![tv]);
                        match lex_spec(cs, self.position()) {
                            Ok(rest) => {
                                assert(toks_view(before) + (seq![tv] + rest) =~= toks_view(tokens@) + rest);
                            },
                            Err(e) => {},
                        }
                    }
                },
                Err(d) => {
                    return Err(d);
                },
            }
        }
    }
}

/// A token stream as the parser expects it: it ends with the one `Eof`, and
/// every token's span is the position of some character of the source.
pub open spec fn tokens_well_formed(ts: Seq<Token>, src: Seq<char>) -> bool {
    &&& ts.len() >= 1
    &&& ts.last().kind == TokenKind::Eof
    &&& forall|i: int| 0 <= i < ts.len() - 1 ==> (#[trigger] ts[i]).kind != TokenKind::Eof
    &&& forall|i: int|
        0 <= i < ts.len() ==> exists|p: nat|
            p <= src.len() && (#[trigger] ts[i]).span == span_at(src, p)
}

/// Lexes a source text into tokens: exactly the tokens the lexing rules
/// give (`lex_spec`), or the first error they meet, at the start of its
/// token.
pub fn lex(src: &str) -> (r: Result<Vec<Token>, Diagnostic>)
    requires
        src@.len() < 0xFFFF_FFFF,
    ensures
        r is Ok ==> tokens_well_formed(r->Ok_0@, src@),
        r is Err ==> r->Err_0.stage == Stage::Lex,
        match lex_spec(src@, 0) {
            Ok(ts) => r is Ok && toks_view(r->Ok_0@) == ts,
            Err((m, sp)) => r is Err && r->Err_0.message@ == m && r->Err_0.span == Some(sp),
        },
{
    let mut l = Lexer::new(src);
    l.run()
}

} // verus!
