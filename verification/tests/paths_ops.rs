use szambo::json::paths::get_json_paths;
use szambo::value::JsonValue;

fn s(v: &str) -> JsonValue {
    JsonValue::string_value(v)
}

fn obj() -> JsonValue {
    JsonValue::empty_object()
}

#[test]
fn should_return_no_paths_for_empty_json_file() {
    let data = obj();
    let expected: Vec<String> = vec![];

    let result = get_json_paths(&data);

    assert_eq!(result.unwrap(), expected);
}

#[test]
fn should_return_all_paths() {
    let data = obj()
        .with_entry("foo", s("value"))
        .with_entry("bar", obj().with_entry("baz", s("value")))
        .with_entry("aaa", obj())
        .with_entry(
            "bbb",
            obj().with_entry("ccc", obj().with_entry("ddd", s("value"))),
        );
    let expected: Vec<String> = vec![
        "bar.baz".to_owned(),
        "bbb.ccc.ddd".to_owned(),
        "foo".to_owned(),
    ];

    let result = get_json_paths(&data);

    assert_eq!(result.unwrap(), expected);
}

#[test]
fn should_refuse_a_leaf_that_is_not_a_string() {
    let data = obj().with_entry("a", JsonValue::Bool(true));

    let result = get_json_paths(&data);

    assert_eq!(result.unwrap_err().message(), "Unexpected value type at 'a'!");
}

#[test]
fn should_name_the_path_of_the_first_offending_leaf() {
    let data = obj()
        .with_entry("z", s("fine"))
        .with_entry("m", obj().with_entry("n", JsonValue::Null));

    let result = get_json_paths(&data);

    assert_eq!(result.unwrap_err().message(), "Unexpected value type at 'm.n'!");
}
