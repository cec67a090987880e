use szambo::json::replace::replace_value_at_key;
use szambo::value::JsonValue;

fn s(v: &str) -> JsonValue {
    JsonValue::string_value(v)
}

fn obj() -> JsonValue {
    JsonValue::empty_object()
}

fn path(segs: &[&str]) -> Vec<String> {
    segs.iter().map(|p| p.to_string()).collect()
}

#[test]
fn should_return_err_if_key_to_replace_does_not_exist() {
    let mut data = obj();
    let expected = obj();

    let result = replace_value_at_key(&mut data, &path(&[]), "new", "value");

    assert_eq!(data, expected);
    assert_eq!(
        result.unwrap_err().message(),
        "Key 'new' does not exist at the target path! Use ADD command instead.",
    );
}

#[test]
fn should_replace_string_at_path_if_key_exists() {
    let mut data = obj().with_entry("key", s("old_value"));
    let expected = obj().with_entry("key", s("new_value"));

    let result = replace_value_at_key(&mut data, &path(&[]), "key", "new_value");

    assert_eq!(data, expected);
    assert_eq!(result.unwrap(), ());
}

#[test]
fn should_replace_object_at_path_if_key_exists() {
    let mut data = obj().with_entry("key", obj().with_entry("foo", s("bar")));
    let expected = obj().with_entry("key", s("new_value"));

    let result = replace_value_at_key(&mut data, &path(&[]), "key", "new_value");

    assert_eq!(data, expected);
    assert_eq!(result.unwrap(), ());
}
