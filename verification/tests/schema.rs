use bulk_ingest::json::{parse_json, JsonValue, Number, Object};
use bulk_ingest::schema::{
    cast_delta, cast_json, cast_to_type, has_finite_fields, set_parsing_error, try_cast_to_type,
    Casting, DataType, Field, FloatReading, TypeClass,
};

fn object(text: &str) -> Object {
    match parse_json(text.as_bytes()).unwrap() {
        JsonValue::Object(object) => object,
        _ => panic!("no object"),
    }
}

fn string(text: &str) -> JsonValue {
    JsonValue::String(text.to_string())
}

fn number(n: i64) -> JsonValue {
    JsonValue::Number(Number::from_i64(n))
}

fn double(x: f64) -> JsonValue {
    JsonValue::Number(Number::Float(x.to_bits()))
}

fn cast_one(value: JsonValue, data_type: DataType) -> (JsonValue, Result<(), String>) {
    let mut record = Object::new();
    record.insert("f".to_string(), value);
    let delta = vec![Field::new("f", data_type, true)];
    let result = cast_to_type(&mut record, &delta, &|_: &JsonValue| "text".to_string());
    (record.get("f").unwrap().clone(), result)
}

#[test]
fn test_set_parsing_error() {
    let mut parse_error = String::new();
    set_parsing_error(&mut parse_error, &Field::new("test", DataType::Utf8, true));
    assert!(!parse_error.is_empty());
    assert_eq!(parse_error, "Failed to cast test to type Utf8 ");
}

#[test]
fn test_cast_to_type() {
    let mut local_val = Object::new();
    local_val.insert("test".to_string(), string("test13212"));
    let delta = vec![Field::new("test", DataType::Utf8, true)];
    let ret_val = cast_to_type(&mut local_val, &delta, &|_: &JsonValue| String::new());
    assert!(ret_val.is_ok());
}

#[test]
fn types_print_as_arrow_prints_them() {
    let pairs = vec![
        (DataType::Utf8, arrow_schema::DataType::Utf8),
        (DataType::LargeUtf8, arrow_schema::DataType::LargeUtf8),
        (DataType::Int64, arrow_schema::DataType::Int64),
        (DataType::Int32, arrow_schema::DataType::Int32),
        (DataType::Int16, arrow_schema::DataType::Int16),
        (DataType::Int8, arrow_schema::DataType::Int8),
        (DataType::UInt64, arrow_schema::DataType::UInt64),
        (DataType::UInt32, arrow_schema::DataType::UInt32),
        (DataType::UInt16, arrow_schema::DataType::UInt16),
        (DataType::UInt8, arrow_schema::DataType::UInt8),
        (DataType::Float64, arrow_schema::DataType::Float64),
        (DataType::Float32, arrow_schema::DataType::Float32),
        (DataType::Float16, arrow_schema::DataType::Float16),
        (DataType::Boolean, arrow_schema::DataType::Boolean),
    ];
    for (own, arrow) in pairs {
        assert_eq!(own.type_text(), arrow.to_string());
    }
    assert_eq!(
        DataType::Other("Date32".to_string()).type_text(),
        arrow_schema::DataType::Date32.to_string()
    );
}

#[test]
fn strings_are_cast_to_integers() {
    assert_eq!(cast_one(string("-17"), DataType::Int64), (number(-17), Ok(())));
    assert_eq!(cast_one(string("+5"), DataType::Int8), (number(5), Ok(())));
    assert_eq!(
        cast_one(string("9223372036854775807"), DataType::Int32),
        (number(i64::MAX), Ok(()))
    );
    assert_eq!(
        cast_one(string("18446744073709551615"), DataType::UInt64),
        (JsonValue::Number(Number::PosInt(u64::MAX)), Ok(()))
    );
    assert_eq!(cast_one(JsonValue::Bool(true), DataType::UInt8), (number(1), Ok(())));
    assert_eq!(cast_one(JsonValue::Bool(false), DataType::Int16), (number(0), Ok(())));
    assert_eq!(cast_one(number(-3), DataType::UInt64), (number(-3), Ok(())));
}

#[test]
fn strings_that_are_no_integers_are_refused() {
    let refused = |data_type: &str| {
        Err(format!("Failed to cast f to type {data_type} "))
    };
    assert_eq!(cast_one(string("1.5"), DataType::Int64), (string("1.5"), refused("Int64")));
    assert_eq!(cast_one(string(""), DataType::Int64).1, refused("Int64"));
    assert_eq!(cast_one(string("+"), DataType::UInt16).1, refused("UInt16"));
    assert_eq!(cast_one(string("-1"), DataType::UInt32).1, refused("UInt32"));
    assert_eq!(cast_one(string("-0"), DataType::Int32), (number(0), Ok(())));
    assert_eq!(cast_one(string("9223372036854775808"), DataType::Int64).1, refused("Int64"));
    assert_eq!(cast_one(string("18446744073709551616"), DataType::UInt64).1, refused("UInt64"));
    assert_eq!(cast_one(JsonValue::Array(vec![]), DataType::Int64).1, refused("Int64"));
    assert_eq!(cast_one(JsonValue::Object(Object::new()), DataType::UInt8).1, refused("UInt8"));
    assert_eq!(cast_one(number(1), DataType::Other("Date32".to_string())).1, refused("Date32"));
}

#[test]
fn strings_are_cast_to_doubles() {
    assert_eq!(cast_one(string("1.5"), DataType::Float64), (double(1.5), Ok(())));
    assert_eq!(cast_one(string("-2e3"), DataType::Float32), (double(-2000.0), Ok(())));
    assert_eq!(cast_one(JsonValue::Bool(true), DataType::Float16), (double(1.0), Ok(())));
    assert_eq!(cast_one(JsonValue::Bool(false), DataType::Float64), (double(0.0), Ok(())));
    assert_eq!(cast_one(number(7), DataType::Float64), (number(7), Ok(())));
    assert_eq!(
        cast_one(string("x"), DataType::Float64).1,
        Err("Failed to cast f to type Float64 ".to_string())
    );
}

#[test]
fn values_are_cast_to_booleans() {
    let yes = (JsonValue::Bool(true), Ok(()));
    let no = (JsonValue::Bool(false), Ok(()));
    assert_eq!(cast_one(string("true"), DataType::Boolean), yes);
    assert_eq!(cast_one(string("false"), DataType::Boolean), no);
    assert_eq!(cast_one(number(3), DataType::Boolean), yes);
    assert_eq!(cast_one(number(0), DataType::Boolean), no);
    assert_eq!(cast_one(number(-3), DataType::Boolean), no);
    assert_eq!(cast_one(double(0.25), DataType::Boolean), yes);
    assert_eq!(cast_one(double(-0.25), DataType::Boolean), no);
    assert_eq!(cast_one(double(0.0), DataType::Boolean), no);
    assert_eq!(cast_one(double(-0.0), DataType::Boolean), no);
    assert_eq!(
        cast_one(string("True"), DataType::Boolean),
        (
            string("True"),
            Err("Failed to cast f to type Boolean ".to_string())
        )
    );
    assert!(cast_one(JsonValue::Array(vec![]), DataType::Boolean).1.is_err());
}

#[test]
fn values_are_rendered_as_text() {
    assert_eq!(cast_one(number(1), DataType::Utf8), (string("text"), Ok(())));
    assert_eq!(cast_one(string("own"), DataType::LargeUtf8), (string("own"), Ok(())));
    assert_eq!(cast_one(JsonValue::Array(vec![]), DataType::Utf8), (string("text"), Ok(())));
}

#[test]
fn null_stays_null_and_missing_fields_stay_missing() {
    assert_eq!(cast_one(JsonValue::Null, DataType::Int64), (JsonValue::Null, Ok(())));
    assert_eq!(
        cast_one(JsonValue::Null, DataType::Other("Date32".to_string())),
        (JsonValue::Null, Ok(()))
    );
    let mut record = object(r#"{"a": "1"}"#);
    let delta = vec![Field::new("b", DataType::Int64, true)];
    assert!(cast_to_type(&mut record, &delta, &|_: &JsonValue| String::new()).is_ok());
    assert!(!record.contains_key("b"));
    assert_eq!(record.get("a").unwrap().as_str(), Some("1"));
}

#[test]
fn every_refused_field_is_named() {
    let mut record = object(r#"{"a": "x", "b": "2", "c": [1]}"#);
    let delta = vec![
        Field::new("a", DataType::Int64, true),
        Field::new("b", DataType::Int64, true),
        Field::new("c", DataType::Boolean, true),
    ];
    let result = cast_to_type(&mut record, &delta, &|_: &JsonValue| String::new());
    assert_eq!(
        result,
        Err("Failed to cast a to type Int64 Failed to cast c to type Boolean ".to_string())
    );
    assert_eq!(*record.get("b").unwrap(), number(2));
    assert_eq!(record.get("a").unwrap().as_str(), Some("x"));
}

#[test]
fn casting_twice_is_casting_once() {
    let delta = vec![
        Field::new("a", DataType::Int64, true),
        Field::new("b", DataType::Boolean, true),
        Field::new("c", DataType::Utf8, true),
    ];
    let mut once = object(r#"{"a": "12", "b": 1, "c": 3, "d": "x"}"#);
    cast_to_type(&mut once, &delta, &|_: &JsonValue| "3".to_string()).unwrap();
    let mut twice = once.clone();
    cast_to_type(&mut twice, &delta, &|_: &JsonValue| "3".to_string()).unwrap();
    assert_eq!(once, twice);
    assert_eq!(*once.get("a").unwrap(), number(12));
    assert_eq!(*once.get("b").unwrap(), JsonValue::Bool(true));
    assert_eq!(once.get("c").unwrap().as_str(), Some("3"));
    assert_eq!(once.get("d").unwrap().as_str(), Some("x"));
}

#[test]
fn one_value_is_cast_by_what_was_read_of_it() {
    let reading = FloatReading::Finite(2.5f64.to_bits());
    assert_eq!(
        cast_json(TypeClass::Float, &string("2.5"), String::new(), reading),
        Casting::Become(double(2.5))
    );
    assert_eq!(
        cast_json(TypeClass::Float, &string("?"), String::new(), FloatReading::NotANumber),
        Casting::Refuse
    );
    assert_eq!(
        cast_json(TypeClass::Text, &number(1), "one".to_string(), FloatReading::NotANumber),
        Casting::Become(string("one"))
    );
    assert_eq!(
        cast_json(TypeClass::Signed, &number(1), String::new(), FloatReading::NotANumber),
        Casting::Keep
    );
}

#[test]
fn only_marked_fields_are_cast_where_the_schema_has_changed() {
    let delta = || {
        vec![
            Field::new("a", DataType::Int64, true),
            Field::new("b", DataType::Int64, true)
                .with_metadata("zo_cast".to_string(), "true".to_string()),
            Field::new("c", DataType::Int64, true)
                .with_metadata("other".to_string(), "zo_cast".to_string()),
        ]
    };
    assert_eq!(cast_delta(None, true), None);
    assert_eq!(cast_delta(None, false), None);
    let all = cast_delta(Some(delta()), false).unwrap();
    assert_eq!(all.len(), 3);
    let marked = cast_delta(Some(delta()), true).unwrap();
    assert_eq!(marked.len(), 1);
    assert_eq!(marked[0].name(), "b");
    assert_eq!(cast_delta(Some(vec![]), true), Some(vec![]));
}

#[test]
fn casting_in_two_parts_is_casting_at_once() {
    let first = || Field::new("a", DataType::Int64, true);
    let second = || Field::new("b", DataType::Boolean, true);
    let mut at_once = object(r#"{"a": "1", "b": "maybe"}"#);
    let mut in_parts = at_once.clone();
    let whole = cast_to_type(&mut at_once, &[first(), second()], &|_: &JsonValue| String::new());
    let part = cast_to_type(&mut in_parts, &[first()], &|_: &JsonValue| String::new());
    assert!(part.is_ok());
    let rest = cast_to_type(&mut in_parts, &[second()], &|_: &JsonValue| String::new());
    assert_eq!(whole, rest);
    assert_eq!(at_once, in_parts);
}

#[test]
fn numbers_without_json_form_are_left_alone() {
    let delta = vec![
        Field::new("a", DataType::Int64, true),
        Field::new("f", DataType::Float64, true),
    ];
    for text in vec!["NaN", "inf", "-inf", "1e999", "-infinity"] {
        let mut record = object(r#"{"a": "1"}"#);
        record.insert("f".to_string(), string(text));
        let before = record.clone();
        assert!(!has_finite_fields(&record, &delta));
        let result = try_cast_to_type(&mut record, &delta, &|_: &JsonValue| String::new());
        assert_eq!(result, None);
        assert_eq!(record, before);
    }
    let mut record = object(r#"{"a": "1", "f": "2.5"}"#);
    assert!(has_finite_fields(&record, &delta));
    let result = try_cast_to_type(&mut record, &delta, &|_: &JsonValue| String::new());
    assert_eq!(result, Some(Ok(())));
    assert_eq!(*record.get("f").unwrap(), double(2.5));
    assert_eq!(*record.get("a").unwrap(), number(1));
}

#[test]
fn a_field_may_be_named_twice() {
    let delta = vec![
        Field::new("f", DataType::Utf8, true),
        Field::new("f", DataType::Float64, true),
    ];
    let mut record = object(r#"{"f": 5}"#);
    assert!(!has_finite_fields(&record, &delta));
    let result = try_cast_to_type(&mut record, &delta, &|_: &JsonValue| "5".to_string());
    assert_eq!(result, Some(Ok(())));
    assert_eq!(*record.get("f").unwrap(), double(5.0));
    let mut record = object(r#"{"f": 5}"#);
    let result = try_cast_to_type(&mut record, &delta, &|_: &JsonValue| "inf".to_string());
    assert_eq!(result, None);
    assert_eq!(*record.get("f").unwrap(), number(5));
}
