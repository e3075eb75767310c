use toml_merge::merge::{merge, merge_documents};
use toml_merge::value::Value;

fn integer(i: i64) -> Value {
    Value::Integer(i)
}

fn s(x: &str) -> Value {
    Value::String(x.to_string())
}

fn arr(xs: Vec<Value>) -> Value {
    Value::Array(xs)
}

fn table(es: Vec<(&str, Value)>) -> Value {
    Value::Table(es.into_iter().map(|(k, v)| (k.to_string(), v)).collect())
}

#[test]
fn single_document_into_empty_is_unchanged() {
    let doc = table(vec![
        ("name", s("svc")),
        ("port", integer(8080)),
        ("tags", arr(vec![s("a"), s("b")])),
        ("db", table(vec![("host", s("localhost")), ("pool", integer(4))])),
    ]);
    let mut acc = Value::empty_table();
    merge(&mut acc, &doc);
    assert_eq!(acc, doc);
    let merged = merge_documents(&vec![doc.deep_copy()]);
    assert_eq!(merged, doc);
}

#[test]
fn later_scalar_wins() {
    let a = table(vec![("k", integer(1))]);
    let b = table(vec![("k", integer(2))]);
    let merged = merge_documents(&vec![a, b]);
    assert_eq!(merged, table(vec![("k", integer(2))]));
}

#[test]
fn later_scalar_replaces_compound() {
    let a = table(vec![("k", table(vec![("a", integer(1))]))]);
    let b = table(vec![("k", s("flat"))]);
    let merged = merge_documents(&vec![a, b]);
    assert_eq!(merged, table(vec![("k", s("flat"))]));
}

#[test]
fn keys_of_both_documents_are_kept() {
    let a = table(vec![("x", integer(1)), ("y", integer(2))]);
    let b = table(vec![("y", integer(3))]);
    let merged = merge_documents(&vec![a, b]);
    assert_eq!(merged, table(vec![("x", integer(1)), ("y", integer(3))]));
}

#[test]
fn new_keys_are_appended_in_order() {
    let a = table(vec![("b", integer(1))]);
    let b = table(vec![("z", integer(2)), ("a", integer(3)), ("b", integer(4))]);
    let merged = merge_documents(&vec![a, b]);
    assert_eq!(merged, table(vec![("b", integer(4)), ("z", integer(2)), ("a", integer(3))]));
}

#[test]
fn sequences_align_by_index() {
    let a = table(vec![("v", arr(vec![integer(1), integer(2), integer(3)]))]);
    let b = table(vec![("v", arr(vec![integer(9)]))]);
    let merged = merge_documents(&vec![a, b]);
    assert_eq!(merged, table(vec![("v", arr(vec![integer(9), integer(2), integer(3)]))]));
}

#[test]
fn longer_incoming_sequence_is_appended() {
    let mut acc = arr(vec![integer(1)]);
    merge(&mut acc, &arr(vec![integer(7), integer(8)]));
    assert_eq!(acc, arr(vec![integer(7), integer(8)]));
}

#[test]
fn sequence_elements_merge_recursively() {
    let mut acc = arr(vec![table(vec![("a", integer(1)), ("b", integer(2))])]);
    merge(&mut acc, &arr(vec![table(vec![("b", integer(5))])]));
    assert_eq!(acc, arr(vec![table(vec![("a", integer(1)), ("b", integer(5))])]));
}

#[test]
fn empty_incoming_compound_keeps_content() {
    let mut acc = arr(vec![integer(1), integer(2)]);
    merge(&mut acc, &arr(vec![]));
    assert_eq!(acc, arr(vec![integer(1), integer(2)]));
    let mut acc = table(vec![("a", integer(1))]);
    merge(&mut acc, &table(vec![]));
    assert_eq!(acc, table(vec![("a", integer(1))]));
}

#[test]
fn type_mismatch_replaces_wholesale() {
    let a = table(vec![("k", table(vec![("a", integer(1))]))]);
    let b = table(vec![("k", arr(vec![integer(1), integer(2)]))]);
    let merged = merge_documents(&vec![a, b]);
    assert_eq!(merged, table(vec![("k", arr(vec![integer(1), integer(2)]))]));
}

#[test]
fn empty_compound_of_other_kind_replaces() {
    let a = table(vec![("k", table(vec![("a", integer(1))]))]);
    let b = table(vec![("k", arr(vec![]))]);
    let merged = merge_documents(&vec![a, b]);
    assert_eq!(merged, table(vec![("k", arr(vec![]))]));
}

#[test]
fn nested_tables_merge_key_by_key() {
    let a = table(vec![("db", table(vec![("host", s("a")), ("port", integer(1))]))]);
    let b = table(vec![("db", table(vec![("port", integer(2)), ("user", s("u"))]))]);
    let c = table(vec![("db", table(vec![("host", s("c"))]))]);
    let merged = merge_documents(&vec![a, b, c]);
    let expected = table(vec![(
        "db",
        table(vec![("host", s("c")), ("port", integer(2)), ("user", s("u"))]),
    )]);
    assert_eq!(merged, expected);
}

#[test]
fn no_documents_give_empty_table() {
    let merged = merge_documents(&vec![]);
    assert_eq!(merged, Value::Table(vec![]));
}

#[test]
fn deep_copy_equals_original() {
    let doc = table(vec![
        ("f", Value::Float(1.5f64.to_bits())),
        ("b", Value::Boolean(true)),
        ("d", Value::Datetime("1979-05-27T07:32:00Z".to_string())),
    ]);
    assert_eq!(doc.deep_copy(), doc);
}
