use boogie_wrapper::order::{compare_str, same_str, Rank};
use boogie_wrapper::text::{
    combine, combine3, decimal_text, finishes_with, holds, join, read_number, signed_text,
    starts_with, strip_prefix,
};
use boogie_wrapper::value::{ModelValue, ValueMap};

fn lit(s: &str) -> ModelValue {
    ModelValue::literal(s)
}

fn list(items: Vec<ModelValue>) -> ModelValue {
    ModelValue::List(items)
}

fn map(entries: Vec<(ModelValue, ModelValue)>) -> ValueMap {
    let mut m = ValueMap::new();
    for (key, value) in entries {
        m.insert(key, value);
    }
    m
}

#[test]
fn constructors() {
    assert_eq!(lit("x"), ModelValue::Literal("x".to_string()));
    assert_eq!(ModelValue::error(), list(vec![lit("Error")]));
}

#[test]
fn extract_list_needs_the_constructor() {
    let v = list(vec![lit("Integer"), lit("5")]);
    assert_eq!(v.extract_list("Integer"), Some(&[lit("5")][..]));
    assert_eq!(v.extract_list("Boolean"), None);
    assert_eq!(list(vec![]).extract_list("Integer"), None);
    assert_eq!(lit("Integer").extract_list("Integer"), None);
    assert_eq!(list(vec![lit("Nil")]).extract_list("Nil"), Some(&[][..]));
}

#[test]
fn extract_primitive_takes_one_literal() {
    let v = list(vec![lit("Integer"), lit("5")]);
    assert_eq!(v.extract_primitive("Integer"), Some(&"5".to_string()));
    assert_eq!(v.extract_primitive("Address"), None);
    let two = list(vec![lit("Integer"), lit("5"), lit("6")]);
    assert_eq!(two.extract_primitive("Integer"), None);
    let nested = list(vec![lit("Integer"), list(vec![])]);
    assert_eq!(nested.extract_primitive("Integer"), None);
}

#[test]
fn extract_number_takes_what_fits() {
    assert_eq!(lit("42").extract_number(), Some(42));
    assert_eq!(lit("+42").extract_number(), Some(42));
    assert_eq!(lit("0007").extract_number(), Some(7));
    assert_eq!(lit("").extract_number(), None);
    assert_eq!(lit("+").extract_number(), None);
    assert_eq!(lit("-1").extract_number(), None);
    assert_eq!(lit("4x").extract_number(), None);
    assert_eq!(lit("18446744073709551615").extract_number(), Some(usize::MAX));
    assert_eq!(lit("18446744073709551616").extract_number(), None);
    assert_eq!(list(vec![]).extract_number(), None);
}

#[test]
fn extract_literal_and_map() {
    assert_eq!(lit("a").extract_literal(), Some(&"a".to_string()));
    assert_eq!(list(vec![]).extract_literal(), None);
    let m = map(vec![(lit("a"), lit("b"))]);
    assert!(lit("a").extract_map().is_none());
    assert!(list(vec![]).extract_map().is_none());
    let v = ModelValue::Mapping(m);
    assert_eq!(v.extract_map().unwrap().entries, vec![(lit("a"), lit("b"))]);
}

#[test]
fn is_literal_compares_the_text() {
    assert!(lit("else").is_literal("else"));
    assert!(!lit("else ").is_literal("else"));
    assert!(!list(vec![lit("else")]).is_literal("else"));
}

#[test]
fn order_is_that_of_the_derived_traits() {
    let values = vec![
        lit(""),
        lit("a"),
        lit("ab"),
        lit("b"),
        lit("\u{e4}"),
        list(vec![]),
        list(vec![lit("a")]),
        list(vec![lit("a"), lit("a")]),
        list(vec![lit("b")]),
        list(vec![list(vec![])]),
        ModelValue::Mapping(map(vec![])),
        ModelValue::Mapping(map(vec![(lit("a"), lit("a"))])),
        ModelValue::Mapping(map(vec![(lit("a"), lit("b"))])),
        ModelValue::Mapping(map(vec![(lit("b"), lit("a"))])),
    ];
    for i in 0..values.len() {
        for j in 0..values.len() {
            let rank = values[i].compare(&values[j]);
            let expected = if i < j {
                Rank::Less
            } else if i == j {
                Rank::Equal
            } else {
                Rank::Greater
            };
            assert!(rank == expected);
            assert_eq!(values[i] < values[j], i < j);
            assert_eq!(values[i] == values[j], i == j);
        }
    }
}

#[test]
fn strings_are_ordered_by_their_bytes() {
    assert!(compare_str("a", "b") == Rank::Less);
    assert!(compare_str("b", "a") == Rank::Greater);
    assert!(compare_str("a", "a") == Rank::Equal);
    assert!(compare_str("z", "\u{e4}") == Rank::Less);
    assert!(compare_str("", "a") == Rank::Less);
    assert!(same_str("x y", "x y"));
    assert!(!same_str("x", "x y"));
}

#[test]
fn insertion_keeps_keys_increasing() {
    let m = map(vec![(lit("b"), lit("1")), (lit("c"), lit("2")), (lit("a"), lit("3"))]);
    assert_eq!(
        m.entries,
        vec![(lit("a"), lit("3")), (lit("b"), lit("1")), (lit("c"), lit("2"))]
    );
}

#[test]
fn a_later_insertion_overrides() {
    let mut m = map(vec![(lit("a"), lit("1")), (lit("b"), lit("2"))]);
    m.insert(lit("a"), lit("3"));
    assert_eq!(m.get(&lit("a")), Some(&lit("3")));
    assert_eq!(m.get(&lit("b")), Some(&lit("2")));
    assert_eq!(m.get(&lit("c")), None);
    assert_eq!(m.entries.len(), 2);
}

#[test]
fn clones_are_equal() {
    let v = list(vec![lit("a"), ModelValue::Mapping(map(vec![(lit("k"), list(vec![]))]))]);
    assert_eq!(v.clone(), v);
}

#[test]
fn decimal_numbers_are_read_back() {
    for n in [0usize, 1, 9, 10, 99, 100, 12345, usize::MAX] {
        let text = decimal_text(n);
        assert_eq!(text, n.to_string());
        assert_eq!(read_number(&text, usize::MAX), Some(n));
    }
    assert_eq!(read_number("256", 255), None);
    assert_eq!(read_number("255", 255), Some(255));
}

#[test]
fn searches_in_texts() {
    assert!(starts_with("abc", "ab"));
    assert!(!starts_with("abc", "b"));
    assert!(starts_with("abc", ""));
    assert!(finishes_with("abc", "bc"));
    assert!(!finishes_with("bc", "abc"));
    assert!(holds("xabcx", "abc"));
    assert!(holds("abc", "abc"));
    assert!(holds("", ""));
    assert!(!holds("abab", "abc"));
    assert_eq!(strip_prefix("T@ByteArray!val!3", "T@ByteArray!val!"), "3");
    assert_eq!(strip_prefix("val!3", "T@ByteArray!val!"), "val!3");
}

#[test]
fn texts_are_put_together() {
    assert_eq!(combine("a", "b"), "ab");
    assert_eq!(combine3("a", "b", "c"), "abc");
    assert_eq!(join(&vec![], ", "), "");
    assert_eq!(join(&vec!["a".to_string()], ", "), "a");
    assert_eq!(join(&vec!["a".to_string(), "b".to_string(), "c".to_string()], ", "), "a, b, c");
}

#[test]
fn integers_have_a_sign() {
    for n in [0i32, 7, -7, i32::MAX, i32::MIN] {
        assert_eq!(signed_text(n), n.to_string());
    }
}
