use boogie_wrapper::parser::{ModelParseError, ModelParser, MODEL_END_MARKER};
use boogie_wrapper::value::ModelValue;

fn lit(s: &str) -> ModelValue {
    ModelValue::literal(s)
}

fn list(items: Vec<ModelValue>) -> ModelValue {
    ModelValue::List(items)
}

#[test]
fn skip_space_stops_at_text() {
    let mut parser = ModelParser::new(" \r\n\tx y");
    parser.skip_space();
    assert_eq!(parser.at, 4);
    parser.skip_space();
    assert_eq!(parser.at, 4);
}

#[test]
fn looking_at_skips_space_only() {
    let mut parser = ModelParser::new("  -> x");
    assert!(parser.looking_at("->"));
    assert_eq!(parser.at, 2);
    assert!(!parser.looking_at("{"));
    assert!(parser.looking_at_then_consume("->"));
    assert_eq!(parser.at, 4);
    assert!(!parser.looking_at_then_consume("->"));
    assert_eq!(parser.at, 5);
}

#[test]
fn expect_quotes_what_comes() {
    let mut parser = ModelParser::new("  }");
    assert_eq!(parser.expect("}"), Ok(()));
    assert_eq!(parser.at, 3);
    let mut parser = ModelParser::new(" rest");
    assert_eq!(
        parser.expect("->"),
        Err(ModelParseError("expected `->` (at `rest...`)".to_string()))
    );
    assert_eq!(parser.at, 1);
}

#[test]
fn expect_quotes_at_most_eighty_bytes() {
    let text = "x".repeat(100);
    let mut parser = ModelParser::new(&text);
    let message = format!("expected `->` (at `{}...`)", "x".repeat(80));
    assert_eq!(parser.expect("->"), Err(ModelParseError(message)));
}

#[test]
fn expect_gives_nothing_within_a_character() {
    let text = format!("{}\u{e4}", "x".repeat(79));
    let mut parser = ModelParser::new(&text);
    assert_eq!(parser.try_expect("->"), None);
}

#[test]
fn values() {
    let mut parser = ModelParser::new(" T@Value!val!3 rest");
    assert_eq!(parser.parse_value(), Ok(lit("T@Value!val!3")));
    assert_eq!(parser.at, 14);
    let mut parser = ModelParser::new("(Vector (ValueArray x 2))");
    assert_eq!(
        parser.parse_value(),
        Ok(list(vec![lit("Vector"), list(vec![lit("ValueArray"), lit("x"), lit("2")])]))
    );
    assert_eq!(parser.at, 25);
    let mut parser = ModelParser::new("()");
    assert_eq!(parser.parse_value(), Ok(list(vec![])));
    let mut parser = ModelParser::new(")");
    assert_eq!(parser.parse_value(), Ok(lit("")));
    assert_eq!(parser.at, 0);
}

#[test]
fn values_that_do_not_end() {
    assert_eq!(ModelParser::new("(a b").try_parse_value(), None);
    assert_eq!(ModelParser::new("gr\u{fc}n").try_parse_value(), None);
}

#[test]
fn keys() {
    let mut parser = ModelParser::new(" a -> b");
    assert_eq!(parser.parse_key(), Ok(lit("a")));
    assert_eq!(parser.at, 3);
    let mut parser = ModelParser::new("a (b c) -> d");
    assert_eq!(
        parser.parse_key(),
        Ok(list(vec![lit("a"), list(vec![lit("b"), lit("c")])]))
    );
    let mut parser = ModelParser::new("-> d");
    assert_eq!(
        parser.parse_key(),
        Err(ModelParseError("expected at least one component of a key".to_string()))
    );
    assert_eq!(ModelParser::new("a b").try_parse_key(), None);
}

#[test]
fn mappings_are_sorted_and_the_last_entry_wins() {
    let text = "b -> 1\na -> {\n  y -> 2\n  x -> 3\n  else -> 4\n}\nb -> 5\n*** END_MODEL";
    let mut parser = ModelParser::new(text);
    let parsed = parser.parse_map().unwrap();
    let vars = parsed.extract_map().unwrap();
    assert_eq!(vars.entries.len(), 2);
    assert_eq!(vars.entries[0].0, lit("a"));
    assert_eq!(vars.entries[1], (lit("b"), lit("5")));
    let inner = vars.entries[0].1.extract_map().unwrap();
    assert_eq!(
        inner.entries,
        vec![(lit("else"), lit("4")), (lit("x"), lit("3")), (lit("y"), lit("2"))]
    );
    assert_eq!(parser.expect(MODEL_END_MARKER), Ok(()));
    assert_eq!(parser.at, text.len());
}

#[test]
fn mappings_with_errors() {
    let mut parser = ModelParser::new("a -> { b -> c *** END_MODEL");
    assert_eq!(
        parser.parse_map(),
        Err(ModelParseError("expected `}` (at `*** END_MODEL...`)".to_string()))
    );
    let mut parser = ModelParser::new("-> c *** END_MODEL");
    assert_eq!(
        parser.parse_map(),
        Err(ModelParseError("expected at least one component of a key".to_string()))
    );
    assert_eq!(ModelParser::new("a -> b").try_parse_map(), None);
}

#[test]
fn empty_mapping() {
    let mut parser = ModelParser::new("  }");
    assert_eq!(parser.parse_map().unwrap().extract_map().unwrap().entries.len(), 0);
    assert_eq!(parser.at, 2);
}

#[test]
fn space_makes_no_difference() {
    let wide = ModelParser::new("   a   ->\n\n b  }").parse_map().unwrap();
    let tight = ModelParser::new("a -> b }").parse_map().unwrap();
    assert_eq!(wide, tight);
}

#[test]
fn written_values_are_read_back() {
    let values = vec![
        ("x", lit("x")),
        ("a(b", lit("a(b")),
        ("()", list(vec![])),
        ("(x)", list(vec![lit("x")])),
        ("(x () (y z))", list(vec![lit("x"), list(vec![]), list(vec![lit("y"), lit("z")])])),
        ("(() ())", list(vec![list(vec![]), list(vec![])])),
    ];
    for (text, value) in values {
        let mut parser = ModelParser::new(text);
        assert_eq!(parser.parse_value(), Ok(value));
        assert_eq!(parser.at, text.len());
    }
}
