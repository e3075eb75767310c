use toml_merge::json::{json_to_toml, toml_to_json, ConvertError, Json};
use toml_merge::merge::merge_documents;
use toml_merge::value::Value;

fn table(es: Vec<(&str, Value)>) -> Value {
    Value::Table(es.into_iter().map(|(k, v)| (k.to_string(), v)).collect())
}

fn object(es: Vec<(&str, Json)>) -> Json {
    Json::Object(es.into_iter().map(|(k, v)| (k.to_string(), v)).collect())
}

#[test]
fn scalars_convert_variant_by_variant() {
    let doc = table(vec![
        ("s", Value::String("hi".to_string())),
        ("i", Value::Integer(-7)),
        ("f", Value::Float(2.25f64.to_bits())),
        ("b", Value::Boolean(false)),
        ("d", Value::Datetime("1979-05-27T07:32:00Z".to_string())),
    ]);
    let expected = object(vec![
        ("s", Json::String("hi".to_string())),
        ("i", Json::Int(-7)),
        ("f", Json::Float(2.25f64.to_bits())),
        ("b", Json::Bool(false)),
        ("d", Json::String("1979-05-27T07:32:00Z".to_string())),
    ]);
    assert_eq!(toml_to_json(&doc), Ok(expected));
}

#[test]
fn compounds_keep_order() {
    let doc = table(vec![
        ("z", Value::Array(vec![Value::Integer(3), Value::Integer(1)])),
        ("a", table(vec![("y", Value::Integer(2)), ("b", Value::Integer(1))])),
    ]);
    let expected = object(vec![
        ("z", Json::Array(vec![Json::Int(3), Json::Int(1)])),
        ("a", object(vec![("y", Json::Int(2)), ("b", Json::Int(1))])),
    ]);
    assert_eq!(toml_to_json(&doc), Ok(expected));
}

#[test]
fn non_finite_float_is_rejected() {
    let nan = f64::NAN.to_bits();
    let inf = f64::INFINITY.to_bits();
    let neg_inf = f64::NEG_INFINITY.to_bits();
    let doc = table(vec![("ok", Value::Integer(1)), ("bad", Value::Array(vec![Value::Float(nan)]))]);
    assert_eq!(toml_to_json(&doc), Err(ConvertError::NonFiniteFloat(nan)));
    assert_eq!(toml_to_json(&Value::Float(inf)), Err(ConvertError::NonFiniteFloat(inf)));
    assert_eq!(toml_to_json(&Value::Float(neg_inf)), Err(ConvertError::NonFiniteFloat(neg_inf)));
    let big = f64::MAX.to_bits();
    assert_eq!(toml_to_json(&Value::Float(big)), Ok(Json::Float(big)));
}

#[test]
fn round_trip_keeps_values_and_shape() {
    let a = table(vec![
        ("name", Value::String("x".to_string())),
        ("list", Value::Array(vec![Value::Integer(1), Value::Float(0.5f64.to_bits())])),
        ("sub", table(vec![("on", Value::Boolean(true))])),
    ]);
    let b = table(vec![("sub", table(vec![("n", Value::Integer(-3))]))]);
    let merged = merge_documents(&vec![a, b]);
    let json = toml_to_json(&merged).unwrap();
    let back = json_to_toml(&json);
    assert_eq!(back, Some(merged));
}

#[test]
fn null_has_no_document_form() {
    assert_eq!(json_to_toml(&Json::Null), None);
    let j = object(vec![("a", Json::Array(vec![Json::Int(1), Json::Null]))]);
    assert_eq!(json_to_toml(&j), None);
}

#[test]
fn no_documents_give_empty_object() {
    let merged = merge_documents(&vec![]);
    assert_eq!(toml_to_json(&merged), Ok(Json::Object(vec![])));
}
