use blazingly_json::map::ObjectMap;
use blazingly_json::number::{Number, Repr};
use blazingly_json::value::{decode_pointer_token, parse_index, Value};

fn object(entries: Vec<(&str, Value)>) -> Value {
    let mut map = ObjectMap::new();
    for (key, value) in entries {
        map.insert(key.to_string(), value);
    }
    Value::Object(map)
}

fn sample() -> Value {
    object(vec![(
        "result",
        object(vec![
            (
                "items",
                Value::Array(vec![
                    object(vec![("id", Value::from(1_u64))]),
                    object(vec![("id", Value::from(2_u64))]),
                ]),
            ),
            ("ok", Value::from(true)),
            ("a/b", Value::from("slash".to_string())),
            ("m~n", Value::from("tilde".to_string())),
        ]),
    )])
}

#[test]
fn pointers_follow_members_and_indices() {
    let value = sample();
    assert_eq!(value.pointer("/result/items/1/id").and_then(Value::as_u64), Some(2));
    assert_eq!(value.pointer("/result/ok").and_then(Value::as_bool), Some(true));
    assert!(value.pointer("/result/missing").is_none());
    assert!(value.pointer("/result/items/2").is_none());
    assert!(value.pointer("/result/items/01").is_none());
    assert!(value.pointer("/result/items/+1").is_none());
    assert!(value.pointer("result").is_none());
    assert_eq!(value.pointer(""), Some(&value));
    assert_eq!(value.pointer("/result/a~1b").and_then(Value::as_str), Some("slash"));
    assert_eq!(value.pointer("/result/m~0n").and_then(Value::as_str), Some("tilde"));
}

#[test]
fn pointer_mut_changes_the_named_value() {
    let mut value = sample();
    *value.pointer_mut("/result/items/0/id").unwrap() = Value::from(10_u64);
    assert_eq!(value.pointer("/result/items/0/id").and_then(Value::as_u64), Some(10));
    assert!(value.pointer_mut("/result/nothing").is_none());
    let taken = value.pointer_mut("/result/ok").unwrap().take();
    assert_eq!(taken, Value::from(true));
    assert!(value.pointer("/result/ok").unwrap().is_null());
}

#[test]
fn pointer_tokens_decode_escapes_in_order() {
    assert_eq!(decode_pointer_token(b"a~1b"), b"a/b".to_vec());
    assert_eq!(decode_pointer_token(b"m~0n"), b"m~n".to_vec());
    assert_eq!(decode_pointer_token(b"~01"), b"~1".to_vec());
    assert_eq!(decode_pointer_token(b"plain"), b"plain".to_vec());
}

#[test]
fn array_indices_are_strict_decimals() {
    assert_eq!(parse_index(b"0"), Some(0));
    assert_eq!(parse_index(b"42"), Some(42));
    assert_eq!(parse_index(b"+7"), None);
    assert_eq!(parse_index(b"+01"), None);
    assert_eq!(parse_index(b"007"), None);
    assert_eq!(parse_index(b""), None);
    assert_eq!(parse_index(b"+"), None);
    assert_eq!(parse_index(b"-1"), None);
    assert_eq!(parse_index(b"1a"), None);
    assert_eq!(parse_index(b"99999999999999999999999"), None);
}

#[test]
fn numbers_keep_integers_exact() {
    let one = Number::from_i64(1);
    assert_eq!(one.repr(), Repr::U64(1));
    assert!(one.is_i64() && one.is_u64() && !one.is_f64());
    let negative = Number::from_i64(-5);
    assert_eq!(negative.as_i64(), Some(-5));
    assert_eq!(negative.as_u64(), None);
    let big = Number::from_u64(u64::MAX);
    assert_eq!(big.as_i64(), None);
    assert!(Number::from_f64_bits(f64::INFINITY.to_bits()).is_none());
    assert!(Number::from_f64_bits(f64::NAN.to_bits()).is_none());
    let half = Number::from_f64_bits(0.5_f64.to_bits()).unwrap();
    assert_eq!(half.float_bits(), Some(0.5_f64.to_bits()));
    assert!(half.is_f64());
}

#[test]
fn float_zeros_compare_equal() {
    let zero = Number::from_f64_bits(0.0_f64.to_bits()).unwrap();
    let negative_zero = Number::from_f64_bits((-0.0_f64).to_bits()).unwrap();
    assert_eq!(zero, negative_zero);
    assert_ne!(zero, Number::from_u64(0));
    assert_ne!(Number::from_i64(9007199254740993), Number::from_f64_bits(9007199254740992.0_f64.to_bits()).unwrap());
}

#[test]
fn value_accessors_agree_with_the_variant() {
    let value = Value::from(-3_i64);
    assert!(value.is_number() && value.is_i64() && !value.is_u64() && !value.is_f64());
    assert_eq!(value.as_i64(), Some(-3));
    assert!(Value::Null.is_null());
    assert_eq!(Value::default(), Value::Null);
    let text = Value::from("x".to_string());
    assert!(text.is_string());
    assert_eq!(text.as_str(), Some("x"));
    assert!(text.as_bool().is_none());
    let array = Value::from(vec![Value::Null]);
    assert_eq!(array.get_index(0), Some(&Value::Null));
    assert!(array.get_index(1).is_none());
    assert!(array.get("key").is_none());
}

#[test]
fn duplicate_object_keys_use_last_value() {
    let mut map = ObjectMap::new();
    map.insert("key".to_string(), Value::from(1_u64));
    map.insert("key".to_string(), Value::from(2_u64));
    let value = Value::Object(map);
    assert_eq!(value.get("key").and_then(Value::as_u64), Some(2));
}

#[test]
fn get_mut_changes_a_member_or_an_element_in_place() {
    let mut value = sample();
    let result = value.get_mut("result").unwrap();
    *result.get_mut("ok").unwrap() = Value::from(false);
    assert!(result.get_mut("missing").is_none());
    let items = result.get_mut("items").unwrap();
    *items.get_index_mut(1).unwrap() = Value::Null;
    assert!(items.get_index_mut(2).is_none());
    assert!(items.get_mut("id").is_none());
    assert_eq!(value.pointer("/result/ok").and_then(Value::as_bool), Some(false));
    assert!(value.pointer("/result/items/1").unwrap().is_null());
    assert_eq!(value.pointer("/result/items/0/id").and_then(Value::as_u64), Some(1));
    assert!(Value::Null.get_index_mut(0).is_none());
}
