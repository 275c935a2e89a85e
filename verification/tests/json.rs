//! Reading engine answers as values of a site's grammar.

use witchcraft::decoder::GenValue;
use witchcraft::grammar::{Grammar, GrammarVariant};
use witchcraft::json::json_to_value;

fn action() -> Grammar {
    Grammar::OneOf(vec![
        GrammarVariant { name: "Draft".to_string(), fields: vec![("reply".to_string(), Grammar::Text { max_len: 16 })] },
        GrammarVariant { name: "Escalate".to_string(), fields: vec![] },
    ])
}

fn variant(v: &Option<GenValue>) -> (String, Vec<String>) {
    match v {
        Some(GenValue::Variant(n, fs)) => (n.clone(), fs.iter().map(|(k, _)| k.clone()).collect()),
        other => panic!("not a variant: {other:?}"),
    }
}

#[test]
fn a_bare_name_reads_a_field_less_variant() {
    assert_eq!(variant(&json_to_value("\"Escalate\"", &action())), ("Escalate".to_string(), vec![]));
    // A variant with fields cannot be named bare.
    assert!(json_to_value("\"Draft\"", &action()).is_none());
}

#[test]
fn a_tagged_object_and_a_nested_key_read_the_payload() {
    let tagged = json_to_value("{\"tag\":\"Draft\",\"reply\":\"hi\"}", &action());
    assert_eq!(variant(&tagged), ("Draft".to_string(), vec!["reply".to_string()]));
    let nested = json_to_value("{\"Draft\":{\"reply\":\"hi\"}}", &action());
    match nested {
        Some(GenValue::Variant(n, fs)) => {
            assert_eq!(n, "Draft");
            assert!(matches!(&fs[0].1, GenValue::Glyph(s) if s == "hi"));
        },
        other => panic!("{other:?}"),
    }
    assert!(json_to_value("{\"tag\":\"Retry\"}", &action()).is_none());
}

#[test]
fn records_lists_and_scalars_follow_the_grammar() {
    let g = Grammar::Record(vec![
        ("urgency".to_string(), Grammar::Number { lo: 0, hi: 10 }),
        ("tags".to_string(), Grammar::List { elem: Box::new(Grammar::Bool), lo: 0, hi: 3 }),
    ]);
    match json_to_value("{\"tags\":[true,false],\"urgency\":7}", &g) {
        Some(GenValue::Record(fs)) => {
            assert_eq!(fs[0].0, "urgency");
            assert!(matches!(fs[0].1, GenValue::Spark(7)));
            assert!(matches!(&fs[1].1, GenValue::List(xs) if xs.len() == 2));
        },
        other => panic!("{other:?}"),
    }
    // A missing key, a float where an integer is owed, and text that is not JSON.
    assert!(json_to_value("{\"urgency\":7}", &g).is_none());
    assert!(json_to_value("{\"tags\":[],\"urgency\":7.5}", &g).is_none());
    assert!(json_to_value("not json", &g).is_none());
}
