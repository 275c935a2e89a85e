//! The lexing rules on concrete texts: token kinds, payloads, positions and
//! the first error.

use witchcraft::error::Stage;
use witchcraft::lexer::lex;
use witchcraft::span::Span;
use witchcraft::token::{StrPart, TokenKind};

fn kinds(src: &str) -> Vec<TokenKind> {
    lex(src).expect("lexes").iter().map(|t| t.kind).collect()
}

#[test]
fn comments_and_whitespace_separate_tokens() {
    let ts = lex("let x = 3.5 # the answer\nspeak x\n").expect("lexes");
    let ks: Vec<TokenKind> = ts.iter().map(|t| t.kind).collect();
    assert_eq!(
        ks,
        vec![
            TokenKind::Let,
            TokenKind::Ident,
            TokenKind::Eq,
            TokenKind::Number,
            TokenKind::Speak,
            TokenKind::Ident,
            TokenKind::Eof
        ]
    );
    assert_eq!(ts[1].text, "x");
    assert_eq!((ts[3].number.mantissa(), ts[3].number.scale()), (35, 1));
    assert_eq!(ts[4].span, Span::new(2, 1));
    assert_eq!(ts[6].span, Span::new(3, 1));
}

#[test]
fn a_dot_belongs_to_a_number_only_before_a_digit() {
    let ts = lex("1..3").expect("lexes");
    let ks: Vec<TokenKind> = ts.iter().map(|t| t.kind).collect();
    assert_eq!(ks, vec![TokenKind::Number, TokenKind::DotDot, TokenKind::Number, TokenKind::Eof]);
    assert_eq!(ts[0].number.mantissa(), 1);
    assert_eq!(ts[2].number.mantissa(), 3);
}

#[test]
fn a_second_fraction_makes_the_number_malformed() {
    let ts = lex("1.2.3").expect("lexes");
    assert_eq!(ts.len(), 2);
    assert_eq!((ts[0].number.mantissa(), ts[0].number.scale()), (0, 0));
}

#[test]
fn a_number_of_more_than_eighteen_digits_is_an_error() {
    let d = lex("x = 1234567890123456789").err().expect("too long");
    assert_eq!(d.stage, Stage::Lex);
    assert_eq!(d.message, "number literal has more than 18 digits");
    assert_eq!(d.span, Some(Span::new(1, 5)));
}

#[test]
fn a_glyph_splits_into_literal_text_and_interpolations() {
    let ts = lex("\"a\\n${x.y}b\"").expect("lexes");
    assert_eq!(ts[0].kind, TokenKind::Str);
    let parts = &ts[0].parts;
    assert_eq!(parts.len(), 3);
    assert!(matches!(&parts[0], StrPart::Lit(s) if s == "a\n"));
    assert!(matches!(&parts[1], StrPart::Expr(s) if s == "x.y"));
    assert!(matches!(&parts[2], StrPart::Lit(s) if s == "b"));
}

#[test]
fn an_empty_glyph_has_one_empty_segment() {
    let ts = lex("\"\"").expect("lexes");
    assert_eq!(ts[0].parts.len(), 1);
    assert!(matches!(&ts[0].parts[0], StrPart::Lit(s) if s.is_empty()));
}

#[test]
fn nested_braces_stay_inside_an_interpolation() {
    let ts = lex("\"${f({a})}\"").expect("lexes");
    assert!(matches!(&ts[0].parts[0], StrPart::Expr(s) if s == "f({a})"));
}

#[test]
fn an_unterminated_glyph_is_reported_at_its_quote() {
    let d = lex("speak\n  \"open").err().expect("unterminated");
    assert_eq!(d.message, "unterminated glyph literal (missing closing '\"')");
    assert_eq!(d.span, Some(Span::new(2, 3)));
}

#[test]
fn an_unterminated_interpolation_is_reported() {
    let d = lex("\"${x\"").err().expect("unterminated");
    assert_eq!(d.message, "unterminated interpolation '${...}' in glyph");
}

#[test]
fn a_lone_bang_is_an_error_but_not_equals_is_a_token() {
    let d = lex("a ! b").err().expect("bang");
    assert_eq!(d.message, "unexpected character '!'");
    assert_eq!(kinds("a != b"), vec![TokenKind::Ident, TokenKind::Ne, TokenKind::Ident, TokenKind::Eof]);
}

#[test]
fn an_unknown_character_is_named_in_the_error() {
    let d = lex("x @ y").err().expect("at sign");
    assert_eq!(d.message, "unexpected character '@'");
    assert_eq!(d.span, Some(Span::new(1, 3)));
}

#[test]
fn keywords_and_their_alternative_spellings() {
    assert_eq!(
        kinds("fn print define speak"),
        vec![TokenKind::Define, TokenKind::Speak, TokenKind::Define, TokenKind::Speak, TokenKind::Eof]
    );
}
