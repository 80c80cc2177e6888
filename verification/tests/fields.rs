use ai_monitor::fields::{find_string, string_value, value_at, FieldValue};

fn text(s: &str) -> FieldValue {
    FieldValue::Text(s.to_owned())
}

fn object(members: Vec<(&str, FieldValue)>) -> FieldValue {
    FieldValue::Object(members.into_iter().map(|(k, v)| (k.to_owned(), v)).collect())
}

fn path(keys: &[&str]) -> Vec<String> {
    keys.iter().map(|k| (*k).to_owned()).collect()
}

#[test]
fn string_value_trims_text() {
    assert_eq!(string_value(&text("  gpt-5 \n")), Some("gpt-5".to_owned()));
    assert_eq!(string_value(&text("   ")), None);
    assert_eq!(string_value(&FieldValue::Other), None);
}

#[test]
fn string_value_prefers_id_then_name_then_value() {
    let v = object(vec![("value", text("v")), ("name", text("n")), ("id", text("i"))]);
    assert_eq!(string_value(&v), Some("i".to_owned()));
    let v = object(vec![("value", text("v")), ("name", text("n")), ("id", text(" "))]);
    assert_eq!(string_value(&v), Some("n".to_owned()));
    let v = object(vec![("value", object(vec![("id", text("deep"))])), ("other", text("x"))]);
    assert_eq!(string_value(&v), Some("deep".to_owned()));
    assert_eq!(string_value(&object(vec![("other", text("x"))])), None);
}

#[test]
fn value_at_follows_object_keys() {
    let v = object(vec![("model", object(vec![("providerID", text("openai"))]))]);
    assert!(matches!(value_at(&v, &path(&["model", "providerID"])), Some(FieldValue::Text(t)) if t == "openai"));
    assert!(value_at(&v, &path(&["model", "missing"])).is_none());
    assert!(value_at(&text("x"), &path(&["model"])).is_none());
    assert!(matches!(value_at(&v, &path(&[])), Some(FieldValue::Object(_))));
}

#[test]
fn find_string_takes_the_first_path_naming_text() {
    let v = object(vec![
        ("providerID", text("  ")),
        ("model", object(vec![("provider", object(vec![("name", text("anthropic"))]))])),
    ]);
    let paths = vec![path(&["providerID"]), path(&["missing"]), path(&["model", "provider"])];
    assert_eq!(find_string(&v, &paths), Some("anthropic".to_owned()));
    assert_eq!(find_string(&v, &vec![path(&["providerID"])]), None);
    assert_eq!(find_string(&v, &Vec::new()), None);
}
