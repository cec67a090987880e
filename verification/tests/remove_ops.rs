use szambo::json::remove::remove_key_at_path;
use szambo::value::JsonValue;

fn s(v: &str) -> JsonValue {
    JsonValue::string_value(v)
}

fn obj() -> JsonValue {
    JsonValue::empty_object()
}

fn path(segs: &[&str]) -> Vec<String> {
    segs.iter().map(|p| p.to_string()).collect()
}

#[test]
fn should_remove_last_key_from_file() {
    let mut data = obj().with_entry("key", s("value"));
    let expected = obj();

    let result = remove_key_at_path(&mut data, &path(&[]), "key");

    assert_eq!(data, expected);
    assert_eq!(result.unwrap(), ());
}

#[test]
fn should_remove_only_matching_key() {
    let mut data = obj().with_entry("key", s("value")).with_entry("other_key", s("value"));
    let expected = obj().with_entry("other_key", s("value"));

    let result = remove_key_at_path(&mut data, &path(&[]), "key");

    assert_eq!(data, expected);
    assert_eq!(result.unwrap(), ());
}

#[test]
fn should_remove_nested_matching_key() {
    let mut data = obj().with_entry("foo", obj().with_entry("key", s("value")));
    let expected = obj().with_entry("foo", obj());

    let result = remove_key_at_path(&mut data, &path(&["foo"]), "key");

    assert_eq!(data, expected);
    assert_eq!(result.unwrap(), ());
}

#[test]
fn should_remove_deeply_nested_matching_key() {
    let mut data = obj().with_entry("foo", obj().with_entry("bar", obj().with_entry("key", s("value"))));
    let expected = obj().with_entry("foo", obj().with_entry("bar", obj()));

    let result = remove_key_at_path(&mut data, &path(&["foo", "bar"]), "key");

    assert_eq!(data, expected);
    assert_eq!(result.unwrap(), ());
}

#[test]
fn should_remove_whole_object_under_key() {
    let mut data = obj().with_entry(
        "foo",
        obj().with_entry(
            "bar",
            obj().with_entry("key", s("value")).with_entry("other_key", s("value")),
        ),
    );
    let expected = obj().with_entry("foo", obj());

    let result = remove_key_at_path(&mut data, &path(&["foo"]), "bar");

    assert_eq!(data, expected);
    assert_eq!(result.unwrap(), ());
}

#[test]
fn should_return_err_if_path_does_not_match_file_shape() {
    let mut data = obj().with_entry("foo", obj().with_entry("bar", obj().with_entry("key", s("value"))));
    let expected = obj().with_entry("foo", obj().with_entry("bar", obj().with_entry("key", s("value"))));

    let result = remove_key_at_path(&mut data, &path(&["foo", "baz"]), "key");

    assert_eq!(data, expected);
    assert_eq!(
        result.unwrap_err().message(),
        "Path segment 'baz' does not exist in the JSON structure!",
    );
}

#[test]
fn should_return_do_nothing_if_path_and_key_do_not_match_file_shape() {
    let mut data = obj().with_entry("foo", obj().with_entry("bar", obj().with_entry("key", s("value"))));
    let expected = obj().with_entry("foo", obj().with_entry("bar", obj().with_entry("key", s("value"))));

    let result = remove_key_at_path(&mut data, &path(&["foo", "bar"]), "other_key");

    assert_eq!(data, expected);
    assert_eq!(result.unwrap(), ());
}
