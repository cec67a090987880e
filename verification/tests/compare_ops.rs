use szambo::json::compare::{get_missing_paths, JsonDiff};
use szambo::value::JsonValue;

fn s(v: &str) -> JsonValue {
    JsonValue::string_value(v)
}

fn obj() -> JsonValue {
    JsonValue::empty_object()
}

#[test]
fn should_return_empty_json_diff_for_two_empty_files() {
    let reference = obj();
    let target = obj();
    let expected = JsonDiff {
        missing_in_reference: vec![],
        missing_in_target: vec![],
        target_file: "target.json".to_owned(),
        reference_file: "reference.json".to_owned(),
    };

    let result = get_missing_paths(&reference, &target, "reference.json", "target.json");

    assert_eq!(result, expected);
}

#[test]
fn should_return_empty_json_diff_for_identical_files() {
    let reference = obj().with_entry(
        "foo",
        obj().with_entry("bar", s("value")).with_entry("baz", s("value")),
    );
    let target = obj().with_entry(
        "foo",
        obj().with_entry("bar", s("other_value")).with_entry("baz", s("yet_another_value")),
    );
    let expected = JsonDiff {
        missing_in_reference: vec![],
        missing_in_target: vec![],
        target_file: "target.json".to_owned(),
        reference_file: "reference.json".to_owned(),
    };

    let result = get_missing_paths(&reference, &target, "reference.json", "target.json");

    assert_eq!(result, expected);
}

#[test]
fn should_return_json_diff_where_key_is_missing_in_target() {
    let reference = obj().with_entry("key", s("value"));
    let target = obj();
    let expected = JsonDiff {
        missing_in_reference: vec![],
        missing_in_target: vec!["key".to_owned()],
        target_file: "target.json".to_owned(),
        reference_file: "reference.json".to_owned(),
    };

    let result = get_missing_paths(&reference, &target, "reference.json", "target.json");

    assert_eq!(result, expected);
}

#[test]
fn should_return_json_diff_where_key_is_missing_in_reference() {
    let reference = obj();
    let target = obj().with_entry("key", s("value"));
    let expected = JsonDiff {
        missing_in_reference: vec!["key".to_owned()],
        missing_in_target: vec![],
        target_file: "target.json".to_owned(),
        reference_file: "reference.json".to_owned(),
    };

    let result = get_missing_paths(&reference, &target, "reference.json", "target.json");

    assert_eq!(result, expected);
}

#[test]
fn should_return_json_diff_where_nested_key_is_missing_in_target() {
    let reference = obj().with_entry(
        "foo",
        obj().with_entry("bar", s("value")).with_entry("baz", s("value")),
    );
    let target = obj().with_entry("foo", obj().with_entry("bar", s("value")));
    let expected = JsonDiff {
        missing_in_reference: vec![],
        missing_in_target: vec!["foo.baz".to_owned()],
        target_file: "target.json".to_owned(),
        reference_file: "reference.json".to_owned(),
    };

    let result = get_missing_paths(&reference, &target, "reference.json", "target.json");

    assert_eq!(result, expected);
}

#[test]
fn should_return_json_diff_where_nested_key_is_missing_in_reference() {
    let reference = obj().with_entry("foo", obj().with_entry("bar", s("value")));
    let target = obj().with_entry(
        "foo",
        obj().with_entry("bar", s("value")).with_entry("baz", s("value")),
    );
    let expected = JsonDiff {
        missing_in_reference: vec!["foo.baz".to_owned()],
        missing_in_target: vec![],
        target_file: "target.json".to_owned(),
        reference_file: "reference.json".to_owned(),
    };

    let result = get_missing_paths(&reference, &target, "reference.json", "target.json");

    assert_eq!(result, expected);
}

#[test]
fn should_return_json_diff_where_reference_and_target_files_have_missing_keys() {
    let reference = obj()
        .with_entry("foo", obj().with_entry("bar", s("value")))
        .with_entry("key", s("value"));
    let target = obj().with_entry(
        "foo",
        obj().with_entry("bar", s("value")).with_entry("baz", s("value")),
    );
    let expected = JsonDiff {
        missing_in_reference: vec!["foo.baz".to_owned()],
        missing_in_target: vec!["key".to_owned()],
        target_file: "target.json".to_owned(),
        reference_file: "reference.json".to_owned(),
    };

    let result = get_missing_paths(&reference, &target, "reference.json", "target.json");

    assert_eq!(result, expected);
}

#[test]
fn should_print_json_diff_in_human_readable_format() {
    let json_diff = JsonDiff {
        missing_in_reference: vec!["foo".to_owned()],
        missing_in_target: vec!["bar".to_owned()],
        target_file: "target.json".to_owned(),
        reference_file: "reference.json".to_owned(),
    };
    let expected = "\nMissing in target (target.json):\n\nbar\n\nMissing in reference (reference.json):\n\nfoo\n".to_owned();

    let result = json_diff.to_report_string();

    assert_eq!(result, expected);
}

#[test]
fn should_print_dashes_for_empty_json_diff_report() {
    let json_diff = JsonDiff {
        missing_in_reference: vec![],
        missing_in_target: vec![],
        target_file: "target.json".to_owned(),
        reference_file: "reference.json".to_owned(),
    };
    let expected =
        "\nMissing in target (target.json):\n\n-\n\nMissing in reference (reference.json):\n\n-\n"
            .to_owned();

    let result = json_diff.to_report_string();

    assert_eq!(result, expected);
}

#[test]
fn should_report_any_difference_from_either_side() {
    let none = JsonDiff {
        missing_in_reference: vec![],
        missing_in_target: vec![],
        target_file: "t".to_owned(),
        reference_file: "r".to_owned(),
    };
    let one_side = JsonDiff {
        missing_in_reference: vec!["foo".to_owned()],
        missing_in_target: vec![],
        target_file: "t".to_owned(),
        reference_file: "r".to_owned(),
    };
    assert!(!none.is_there_any_difference());
    assert!(one_side.is_there_any_difference());
}

#[test]
fn should_report_no_difference_for_document_against_itself() {
    let doc = obj()
        .with_entry("foo", obj().with_entry("bar", s("value")))
        .with_entry("key", s("value"));

    let result = get_missing_paths(&doc, &doc, "reference.json", "target.json");

    assert!(!result.is_there_any_difference());
    assert_eq!(result.missing_in_target, Vec::<String>::new());
    assert_eq!(result.missing_in_reference, Vec::<String>::new());
}

#[test]
fn should_swap_reports_when_operands_swap() {
    let a = obj()
        .with_entry("foo", obj().with_entry("bar", s("value")))
        .with_entry("key", s("value"));
    let b = obj().with_entry(
        "foo",
        obj().with_entry("bar", s("value")).with_entry("baz", s("value")),
    );

    let ab = get_missing_paths(&a, &b, "a.json", "b.json");
    let ba = get_missing_paths(&b, &a, "b.json", "a.json");

    assert_eq!(ab.missing_in_target, ba.missing_in_reference);
    assert_eq!(ab.missing_in_reference, ba.missing_in_target);
}

#[test]
fn should_diff_reference_with_extra_nested_leaf() {
    let reference = obj().with_entry(
        "a",
        obj().with_entry("b", s("x")).with_entry("c", s("y")),
    );
    let target = obj().with_entry("a", obj().with_entry("b", s("x")));

    let result = get_missing_paths(&reference, &target, "reference.json", "target.json");

    assert_eq!(result.missing_in_target, vec!["a.c".to_owned()]);
    assert_eq!(result.missing_in_reference, Vec::<String>::new());
}
