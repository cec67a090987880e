use szambo::json::rename::rename_key_at_path;
use szambo::value::JsonValue;

fn s(v: &str) -> JsonValue {
    JsonValue::string_value(v)
}

fn obj() -> JsonValue {
    JsonValue::empty_object()
}

fn path(segs: &[&str]) -> Vec<String> {
    segs.iter().map(|p| p.to_string()).collect()
}

#[test]
fn should_rename_key_at_path() {
    let mut data = obj().with_entry("key", s("value"));
    let expected = obj().with_entry("new_key", s("value"));

    let result = rename_key_at_path(&mut data, &path(&["key"]), &path(&["new_key"]));

    assert_eq!(data, expected);
    assert_eq!(result.unwrap(), ());
}

#[test]
fn should_rename_nested_key_at_path() {
    let mut data = obj().with_entry("foo", obj().with_entry("key", s("value")));
    let expected = obj().with_entry("foo", obj().with_entry("new_key", s("value")));

    let result = rename_key_at_path(&mut data, &path(&["foo", "key"]), &path(&["foo", "new_key"]));

    assert_eq!(data, expected);
    assert_eq!(result.unwrap(), ());
}

#[test]
fn should_rename_deeply_nested_key_at_path() {
    let mut data = obj().with_entry("foo", obj().with_entry("bar", obj().with_entry("key", s("value"))));
    let expected =
        obj().with_entry("foo", obj().with_entry("bar", obj().with_entry("new_key", s("value"))));

    let result = rename_key_at_path(
        &mut data,
        &path(&["foo", "bar", "key"]),
        &path(&["foo", "bar", "new_key"]),
    );

    assert_eq!(data, expected);
    assert_eq!(result.unwrap(), ());
}

#[test]
fn should_move_existing_key_to_parent_key() {
    let mut data = obj().with_entry(
        "foo",
        obj().with_entry(
            "bar",
            obj().with_entry("key", s("value")).with_entry("other_key", s("value")),
        ),
    );
    let expected = obj().with_entry("foo", obj().with_entry("bar", s("value")));

    let result = rename_key_at_path(&mut data, &path(&["foo", "bar", "key"]), &path(&["foo", "bar"]));

    assert_eq!(data, expected);
    assert_eq!(result.unwrap(), ());
}

#[test]
fn should_move_existing_key_as_parent_sibling() {
    let mut data = obj().with_entry("foo", obj().with_entry("bar", obj().with_entry("key", s("value"))));
    let expected = obj().with_entry(
        "foo",
        obj().with_entry("bar", obj()).with_entry("baz", s("value")),
    );

    let result = rename_key_at_path(&mut data, &path(&["foo", "bar", "key"]), &path(&["foo", "baz"]));

    assert_eq!(data, expected);
    assert_eq!(result.unwrap(), ());
}

#[test]
fn should_return_err_if_from_path_does_not_exist_in_file() {
    let mut data = obj().with_entry("foo", obj().with_entry("bar", obj().with_entry("key", s("value"))));
    let expected = obj().with_entry("foo", obj().with_entry("bar", obj().with_entry("key", s("value"))));

    let result = rename_key_at_path(
        &mut data,
        &path(&["foo", "bar", "other_key"]),
        &path(&["foo", "baz"]),
    );

    assert_eq!(data, expected);
    assert_eq!(
        result.unwrap_err().message(),
        "Key 'foo.bar.other_key' not found during rename!"
    );
}
