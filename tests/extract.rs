use binary_extract::{extract, find_end, from_decoded, value_span, ExtractError};
use json::JsonValue;

fn object_of(pairs: Vec<(&str, JsonValue)>) -> JsonValue {
    let mut obj = JsonValue::new_object();
    for (k, v) in pairs {
        obj.insert(k, v).unwrap();
    }
    obj
}

fn array_of(items: Vec<JsonValue>) -> JsonValue {
    let mut arr = JsonValue::new_array();
    for v in items {
        arr.push(v).unwrap();
    }
    arr
}

#[test]
fn test() {
    let value = extract(r#"{"foo": "bar"}"#, "foo").unwrap();
    assert_eq!(value, "bar");

    let value = extract(r#"{"foo": "bar","bar":"baz"}"#, "foo").unwrap();
    assert_eq!(value, "bar");

    let value = extract(r#"{"foo": "bar","bar":"baz"}"#, "bar").unwrap();
    assert_eq!(value, "baz");

    let value = extract(r#"{"foo":{"beep":"boop","bar":"oops"},"bar":"baz"}"#, "bar").unwrap();
    assert_eq!(value, "baz");

    let value = extract(r#"{"foo":[{"bar":"oops"}],"bar":"baz"}"#, "bar").unwrap();
    assert_eq!(value, "baz");

    let value = extract(r#"{"foo":{"bar":"baz"}}"#, "foo").unwrap();
    assert_eq!(value, object_of(vec![("bar", "baz".into())]));

    let value = extract(r#"{"foo":["bar","baz"]}"#, "foo").unwrap();
    assert_eq!(value, array_of(vec!["bar".into(), "baz".into()]));

    let value = extract(r#"{"foo": "bar"}"#, "foo").unwrap();
    assert_eq!(value, "bar");

    let value = extract(r#"{"beep":"\\","foo":"bar"}"#, "foo").unwrap();
    assert_eq!(value, "bar");

    let value = extract(r#"{"foo":"bar\"baz"}"#, "foo").unwrap();
    assert_eq!(value, "bar\"baz");

    let value = extract(r#"{"_a":0,"a_":1,"_a_":2,"a":3}"#, "a").unwrap();
    assert_eq!(value, 3);

    extract(r#"{"foo"}"#, "foo").unwrap_err();
    extract(r#"{"foo":"bar"}"#, "bar").unwrap_err();

    let value = extract(r#"{"foo":{"bar":{"baz":"beep"}}}"#, "foo").unwrap();
    assert_eq!(
        value,
        object_of(vec![("bar", object_of(vec![("baz", "beep".into())]))])
    );
}

#[test]
fn first_top_level_occurrence_wins() {
    let value = extract(r#"{"a":1,"a":2}"#, "a").unwrap();
    assert_eq!(value, 1);
}

#[test]
fn nested_key_is_not_found() {
    let r = extract(r#"{"outer":{"a":1}}"#, "a");
    assert!(matches!(r, Err(ExtractError::KeyNotFound())));
}

#[test]
fn key_as_string_value_is_not_found() {
    let r = extract(r#"{"x":"a"}"#, "a");
    assert!(matches!(r, Err(ExtractError::KeyNotFound())));
}

#[test]
fn escapes_do_not_disturb_the_scan() {
    let value = extract(r#"{"s":"\\\"","a":1}"#, "a").unwrap();
    assert_eq!(value, 1);
}

#[test]
fn escaped_quote_does_not_open_a_key() {
    let r = extract(r#"{"x\"a":1}"#, "a");
    assert!(matches!(r, Err(ExtractError::KeyNotFound())));
}

#[test]
fn object_value_keeps_its_braces() {
    let value = extract(r#"{"a":{"b":1}}"#, "a").unwrap();
    assert_eq!(value, object_of(vec![("b", 1.into())]));
}

#[test]
fn array_value_keeps_its_brackets() {
    let value = extract(r#"{"a":[1,2]}"#, "a").unwrap();
    assert_eq!(value, array_of(vec![1.into(), 2.into()]));
}

#[test]
fn delimiters_inside_strings_of_a_value() {
    let value = extract(r#"{"a":{"b":"x}y"}}"#, "a").unwrap();
    assert_eq!(value, object_of(vec![("b", "x}y".into())]));
    let value = extract(r#"{"a":"p,q]","b":2}"#, "a").unwrap();
    assert_eq!(value, "p,q]");
}

#[test]
fn whitespace_after_the_colon() {
    let value = extract("{\"a\":\n\t {\"b\": [true, null]} , \"c\": 0}", "a").unwrap();
    assert_eq!(
        value,
        object_of(vec![("b", array_of(vec![true.into(), JsonValue::Null]))])
    );
}

#[test]
fn truncated_after_key_is_too_short() {
    assert!(matches!(extract(r#"{"a":"#, "a"), Err(ExtractError::JsonTooShort())));
    assert!(matches!(extract(r#"{"a": "#, "a"), Err(ExtractError::JsonTooShort())));
    assert!(matches!(extract(r#"{"a""#, "a"), Err(ExtractError::JsonTooShort())));
}

#[test]
fn truncated_value_misses_its_end() {
    assert!(matches!(extract(r#"{"a":1"#, "a"), Err(ExtractError::MissingEnd())));
    assert!(matches!(extract(r#"{"a":[1,2"#, "a"), Err(ExtractError::MissingEnd())));
    assert!(matches!(extract(r#"{"a":"x,"#, "a"), Err(ExtractError::MissingEnd())));
}

#[test]
fn repeated_calls_agree() {
    let text = r#"{"k":[1,{"z":null}],"m":"n"}"#;
    assert_eq!(extract(text, "k").unwrap(), extract(text, "k").unwrap());
    assert_eq!(value_span(text, "m").unwrap(), value_span(text, "m").unwrap());
}

#[test]
fn invalid_key_is_refused() {
    assert!(matches!(extract(r#"{"a\"b":1}"#, "a\"b"), Err(ExtractError::InvalidKey())));
    assert!(matches!(value_span(r#"{"a\\":1}"#, "a\\"), Err(ExtractError::InvalidKey())));
}

#[test]
fn undecodable_span_is_a_json_error() {
    assert!(matches!(extract(r#"{"a":tru}"#, "a"), Err(ExtractError::JsonError(_))));
}

#[test]
fn non_ascii_text_is_sliced_on_characters() {
    let value = extract(r#"{"é":"ü","a":"ö"}"#, "a").unwrap();
    assert_eq!(value, "ö");
    let value = extract(r#"{"ключ":"значение"}"#, "ключ").unwrap();
    assert_eq!(value, "значение");
}

#[test]
fn empty_key_matches_empty_quotes() {
    let value = extract(r#"{"":5,"b":6}"#, "").unwrap();
    assert_eq!(value, 5);
}

#[test]
fn value_span_positions() {
    assert_eq!(value_span(r#"{"foo": "bar"}"#, "foo").unwrap(), (8, 13));
    assert_eq!(value_span(r#"{"a":[1,2],"b":0}"#, "a").unwrap(), (5, 10));
    assert_eq!(value_span(r#"{"a":[1,2],"b":0}"#, "b").unwrap(), (15, 16));
    assert!(matches!(value_span(r#"{"b":0}"#, "a"), Err(ExtractError::KeyNotFound())));
}

#[test]
fn find_end_positions_and_errors() {
    assert_eq!(find_end(r#"{"a":[1,2],"b":0}"#, 5).unwrap(), 10);
    assert_eq!(find_end(r#"{"a":12,"b":0}"#, 5).unwrap(), 7);
    assert_eq!(find_end(r#"{"a":{"c":[]}}"#, 5).unwrap(), 13);
    assert!(matches!(find_end("abc", 3), Err(ExtractError::JsonTooShort())));
    assert!(matches!(find_end("abc", 9), Err(ExtractError::JsonTooShort())));
    assert!(matches!(find_end("1", 0), Err(ExtractError::MissingEnd())));
}

#[test]
fn serialized_members_come_back() {
    let members: Vec<(&str, JsonValue)> = vec![
        ("s", "text, with } and ] and \" and \\".into()),
        ("n", (-12.5).into()),
        ("t", true.into()),
        ("z", JsonValue::Null),
        ("o", object_of(vec![("x", 1.into()), ("y", array_of(vec![2.into()]))])),
        ("a", array_of(vec!["p".into(), object_of(vec![("q", false.into())])])),
    ];
    let obj = object_of(members.clone());
    for text in [json::stringify(obj.clone()), json::stringify_pretty(obj.clone(), 2)] {
        for (k, v) in &members {
            assert_eq!(&extract(&text, k).unwrap(), v);
        }
    }
}

#[test]
fn decoder_results_are_mapped() {
    assert_eq!(from_decoded(json::parse("[7]")).unwrap(), array_of(vec![7.into()]));
    let r = from_decoded(json::parse("[7"));
    assert!(matches!(r, Err(ExtractError::JsonError(json::Error::UnexpectedEndOfJson))));
}
