//! JSON.
use geosetta::json::{parse, JsonValue};


#[test]
fn parses_scalars() {
    assert_eq!(parse("null").unwrap(), JsonValue::Null);
    assert_eq!(parse("true").unwrap(), JsonValue::Bool(true));
    assert_eq!(parse("  false ").unwrap(), JsonValue::Bool(false));
    assert_eq!(parse("\"hi\"").unwrap(), JsonValue::String("hi".into()));
}

#[test]
fn distinguishes_int_and_float() {
    match parse("42").unwrap() {
        JsonValue::Number { text, is_int } => {
            assert_eq!(text.parse::<f64>().unwrap(), 42.0);
            assert!(is_int);
        }
        _ => panic!(),
    }
    match parse("-3.5e2").unwrap() {
        JsonValue::Number { text, is_int } => {
            assert_eq!(text.parse::<f64>().unwrap(), -350.0);
            assert!(!is_int);
        }
        _ => panic!(),
    }
}

#[test]
fn parses_nested_and_preserves_order() {
    let v = parse(r#"{"b": [1, 2], "a": {"x": null}}"#).unwrap();
    let obj = v.as_object().unwrap();
    assert_eq!(obj[0].0, "b");
    assert_eq!(obj[1].0, "a");
    assert_eq!(v.get("b").unwrap().as_array().unwrap().len(), 2);
}

#[test]
fn handles_escapes_and_unicode() {
    assert_eq!(parse(r#""a\nb""#).unwrap().as_str().unwrap(), "a\nb");
    assert_eq!(parse(r#""é""#).unwrap().as_str().unwrap(), "é");
    assert_eq!(parse(r#""😀""#).unwrap().as_str().unwrap(), "😀");
    assert_eq!(parse("\"café\"").unwrap().as_str().unwrap(), "café");
}

#[test]
fn parser_rejects_garbage() {
    assert!(parse("{").is_err());
    assert!(parse("[1,]").is_err());
    assert!(parse("nul").is_err());
    assert!(parse("1 2").is_err());
}

#[test]
fn a_value_is_read_back() {
    let text = r#"{"a":[1,-2.5,true,null],"b":"q\"\\\n\u0001é","c":{}}"#;
    let v = parse(text).unwrap();
    assert_eq!(v.to_json_string(), text);
    assert_eq!(parse(&v.to_json_string()).unwrap(), v);
    assert_eq!(parse("[-2.50,1e9]").unwrap().to_json_string(), "[-2.5,1000000000]");
    assert_eq!(parse("[-0,-0.0]").unwrap().to_json_string(), "[0,-0]");
}

#[test]
fn errors_give_the_byte() {
    assert_eq!(
        parse("\"é").unwrap_err().message(),
        "json parse error at byte 3: unterminated string"
    );
    match parse("[1,]").unwrap_err() {
        geosetta::error::Error::Json { offset, .. } => assert_eq!(offset, 3),
        other => panic!("{other:?}"),
    }
}
