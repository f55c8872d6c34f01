use confix_rs::confix::{confix_doc_text, PathStep, Value};
use confix_rs::json_cursor::{focus, JsonValue};

fn sample() -> JsonValue {
    // {"a": [1, {"b": "deep"}]}
    JsonValue::Object(vec![(
        "a".to_string(),
        JsonValue::Array(vec![
            JsonValue::Number("1".to_string()),
            JsonValue::Object(vec![("b".to_string(), JsonValue::Text("deep".to_string()))]),
        ]),
    )])
}

#[test]
fn focus_object_key_and_array_index() {
    let v = sample();
    let path = [
        PathStep::Key("a".into()),
        PathStep::Index(1),
        PathStep::Key("b".into()),
    ];
    assert!(matches!(focus(&v, &path), Some(JsonValue::Text(s)) if s == "deep"));
    assert!(focus(&v, &[PathStep::Key("missing".into())]).is_none());
    assert!(focus(&v, &[PathStep::Index(0)]).is_none());
}

#[test]
fn json_focus_of_the_empty_path_is_the_root_and_copies_are_equal() {
    let v = sample();
    let root = focus(&v, &[]).unwrap();
    assert_eq!(format!("{root:?}"), format!("{v:?}"));
    let copy = v.deep_clone();
    assert_eq!(format!("{copy:?}"), format!("{v:?}"));
    assert!(focus(&v, &[PathStep::Key("a".into()), PathStep::Index(2)]).is_none());
    assert!(matches!(
        focus(&v, &[PathStep::Key("a".into()), PathStep::Index(0)]),
        Some(JsonValue::Number(n)) if n == "1"
    ));
}

#[test]
fn navigation_selects_a_token_then_reifies_it() {
    let doc = confix_doc_text(r#"{"facts":[{"name":"depot","location":"North"}]}"#);
    let path = [
        PathStep::Key("facts".into()),
        PathStep::Index(0),
        PathStep::Key("location".into()),
    ];
    let token = doc.get_at(&path).expect("selected token");
    assert_eq!(&doc.src()[token.open..=token.close], b"\"North\"");
    assert_eq!(doc.scalar(&path), Some(Value::Text("North".into())));
    assert!(doc.get_at(&[PathStep::Key("facts[0].location".into())]).is_none());
    assert!(doc.get_at(&[]).is_some());
}

#[test]
fn navigation_of_a_joined_path_is_navigation_from_the_first_part() {
    let doc = confix_doc_text(r#"{"facts":[{"name":"depot","location":"North"}]}"#);
    let first = [PathStep::Key("facts".into()), PathStep::Index(0)];
    let second = [PathStep::Key("name".into())];
    let joined = [
        PathStep::Key("facts".into()),
        PathStep::Index(0),
        PathStep::Key("name".into()),
    ];
    let mid = doc.get_at(&first).unwrap();
    let via_mid = mid.get_at(&second, doc.src()).unwrap();
    let direct = doc.get_at(&joined).unwrap();
    assert_eq!((via_mid.open, via_mid.close), (direct.open, direct.close));
}
