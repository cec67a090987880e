use szambo::value::JsonValue;

fn s(v: &str) -> JsonValue {
    JsonValue::string_value(v)
}

fn obj() -> JsonValue {
    JsonValue::empty_object()
}

fn path(segs: &[&str]) -> Vec<String> {
    segs.iter().map(|p| p.to_string()).collect()
}

#[test]
fn json_should_insert_value_in_empty_json_file() {
    let mut data = obj();
    let expected = obj().with_entry("new", s("value"));

    let result = szambo::json::insert_under_key(&mut data, &path(&[]), "new", "value");

    assert_eq!(data, expected);
    assert_eq!(result.unwrap(), ());
}

#[test]
fn json_should_insert_before_existing_key_if_alphabetically_earlier() {
    let mut data = obj().with_entry("a", s("a_value"));
    let expected = obj().with_entry("a", s("a_value")).with_entry("new", s("value"));

    let result = szambo::json::insert_under_key(&mut data, &path(&[]), "new", "value");

    assert_eq!(data, expected);
    assert_eq!(result.unwrap(), ());
}

#[test]
fn json_should_insert_after_existing_key_if_alphabetically_later() {
    let mut data = obj().with_entry("m", s("m_value"));
    let expected = obj().with_entry("new", s("value")).with_entry("m", s("m_value"));

    let result = szambo::json::insert_under_key(&mut data, &path(&[]), "new", "value");

    assert_eq!(data, expected);
    assert_eq!(result.unwrap(), ());
}

#[test]
fn json_should_insert_value_at_path_if_path_exists() {
    let mut data = obj().with_entry("foo", obj());
    let expected = obj().with_entry("foo", obj().with_entry("new", s("value")));

    let result = szambo::json::insert_under_key(&mut data, &path(&["foo"]), "new", "value");

    assert_eq!(data, expected);
    assert_eq!(result.unwrap(), ());
}

#[test]
fn json_should_insert_value_at_path_if_path_does_not_exists() {
    let mut data = obj();
    let expected = obj().with_entry("foo", obj().with_entry("new", s("value")));

    let result = szambo::json::insert_under_key(&mut data, &path(&["foo"]), "new", "value");

    assert_eq!(data, expected);
    assert_eq!(result.unwrap(), ());
}

#[test]
fn json_should_insert_value_at_deep_path_if_path_does_not_exists() {
    let mut data = obj();
    let expected = obj().with_entry("foo", obj().with_entry("bar", obj().with_entry("new", s("value"))));

    let result = szambo::json::insert_under_key(&mut data, &path(&["foo", "bar"]), "new", "value");

    assert_eq!(data, expected);
    assert_eq!(result.unwrap(), ());
}

#[test]
fn json_should_return_error_if_there_is_object_under_key() {
    let mut data = obj().with_entry("new", obj().with_entry("inner", s("inner_value")));
    let expected = obj().with_entry("new", obj().with_entry("inner", s("inner_value")));

    let result = szambo::json::insert_under_key(&mut data, &path(&[]), "new", "value");

    assert_eq!(data, expected);
    assert_eq!(
        result.unwrap_err().message(),
        "Key 'new' already exists at the target path! Use REPLACE command instead.",
    );
}

#[test]
fn json_should_return_error_if_there_is_string_under_key() {
    let mut data = obj().with_entry("new", s("new_value"));
    let expected = obj().with_entry("new", s("new_value"));

    let result = szambo::json::insert_under_key(&mut data, &path(&[]), "new", "value");

    assert_eq!(data, expected);
    assert_eq!(
        result.unwrap_err().message(),
        "Key 'new' already exists at the target path! Use REPLACE command instead.",
    );
}

#[test]
fn insert_should_insert_value_in_empty_json_file() {
    let mut data = obj();
    let expected = obj().with_entry("new", s("value"));

    let result = szambo::json::insert::insert_under_key(&mut data, &path(&[]), "new", "value");

    assert_eq!(data, expected);
    assert_eq!(result.unwrap(), ());
}

#[test]
fn insert_should_insert_before_existing_key_if_alphabetically_earlier() {
    let mut data = obj().with_entry("a", s("a_value"));
    let expected = obj().with_entry("a", s("a_value")).with_entry("new", s("value"));

    let result = szambo::json::insert::insert_under_key(&mut data, &path(&[]), "new", "value");

    assert_eq!(data, expected);
    assert_eq!(result.unwrap(), ());
}

#[test]
fn insert_should_insert_after_existing_key_if_alphabetically_later() {
    let mut data = obj().with_entry("m", s("m_value"));
    let expected = obj().with_entry("new", s("value")).with_entry("m", s("m_value"));

    let result = szambo::json::insert::insert_under_key(&mut data, &path(&[]), "new", "value");

    assert_eq!(data, expected);
    assert_eq!(result.unwrap(), ());
}

#[test]
fn insert_should_insert_value_at_path_if_path_exists() {
    let mut data = obj().with_entry("foo", obj());
    let expected = obj().with_entry("foo", obj().with_entry("new", s("value")));

    let result = szambo::json::insert::insert_under_key(&mut data, &path(&["foo"]), "new", "value");

    assert_eq!(data, expected);
    assert_eq!(result.unwrap(), ());
}

#[test]
fn insert_should_insert_value_at_path_if_path_does_not_exists() {
    let mut data = obj();
    let expected = obj().with_entry("foo", obj().with_entry("new", s("value")));

    let result = szambo::json::insert::insert_under_key(&mut data, &path(&["foo"]), "new", "value");

    assert_eq!(data, expected);
    assert_eq!(result.unwrap(), ());
}

#[test]
fn insert_should_insert_value_at_deep_path_if_path_does_not_exists() {
    let mut data = obj();
    let expected = obj().with_entry("foo", obj().with_entry("bar", obj().with_entry("new", s("value"))));

    let result =
        szambo::json::insert::insert_under_key(&mut data, &path(&["foo", "bar"]), "new", "value");

    assert_eq!(data, expected);
    assert_eq!(result.unwrap(), ());
}

#[test]
fn insert_should_return_error_if_there_is_object_under_key() {
    let mut data = obj().with_entry("new", obj().with_entry("inner", s("inner_value")));
    let expected = obj().with_entry("new", obj().with_entry("inner", s("inner_value")));

    let result = szambo::json::insert::insert_under_key(&mut data, &path(&[]), "new", "value");

    assert_eq!(data, expected);
    assert_eq!(
        result.unwrap_err().message(),
        "Key 'new' already exists at the target path! Use REPLACE command instead.",
    );
}

#[test]
fn insert_should_return_error_if_there_is_string_under_key() {
    let mut data = obj().with_entry("new", s("new_value"));
    let expected = obj().with_entry("new", s("new_value"));

    let result = szambo::json::insert::insert_under_key(&mut data, &path(&[]), "new", "value");

    assert_eq!(data, expected);
    assert_eq!(
        result.unwrap_err().message(),
        "Key 'new' already exists at the target path! Use REPLACE command instead.",
    );
}

#[test]
fn should_return_error_if_found_string_instead_of_object_during_path_traversal() {
    let mut data = obj().with_entry("foo", s("foo_value"));
    let expected = obj().with_entry("foo", s("foo_value"));

    let result =
        szambo::json::insert::insert_under_key(&mut data, &path(&["foo", "bar"]), "new", "value");

    assert_eq!(data, expected);
    assert_eq!(
        result.unwrap_err().message(),
        "Expected object at path segment 'foo', but found something else!"
    );
}

#[test]
fn should_return_error_if_value_under_final_path_is_string_and_not_object() {
    let mut data = obj().with_entry("foo", obj().with_entry("bar", s("bar_value")));

    let result =
        szambo::json::insert::insert_under_key(&mut data, &path(&["foo", "bar"]), "new", "value");

    assert_eq!(
        result.unwrap_err().message(),
        "Expected an object at final path to insert into, but found non-object."
    );
}
