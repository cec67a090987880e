use szambo::json::insert::insert_under_key;
use szambo::json::remove::remove_key_at_path;
use szambo::search::{filter_unused_paths, get_string_at_path};
use szambo::value::JsonValue;

fn s(v: &str) -> JsonValue {
    JsonValue::string_value(v)
}

fn obj() -> JsonValue {
    JsonValue::empty_object()
}

fn path(segs: &[&str]) -> Vec<String> {
    segs.iter().map(|p| p.to_string()).collect()
}

#[test]
fn insert_then_remove_returns_empty_document_to_empty() {
    let mut data = obj();
    let original = obj();

    insert_under_key(&mut data, &path(&[]), "key", "value").unwrap();
    remove_key_at_path(&mut data, &path(&[]), "key").unwrap();

    assert_eq!(data, original);
}

#[test]
fn insert_at_empty_path_lands_beside_existing_keys() {
    let mut data = obj().with_entry("m", s("m_value"));
    let expected = obj().with_entry("m", s("m_value")).with_entry("new", s("value"));

    insert_under_key(&mut data, &path(&[]), "new", "value").unwrap();

    assert_eq!(data, expected);
    assert!(data.check_well_formed());
}

#[test]
fn remove_key_leaves_its_siblings_alone() {
    let mut data = obj().with_entry(
        "foo",
        obj().with_entry(
            "bar",
            obj().with_entry("key", s("v")).with_entry("other", s("v2")),
        ),
    );
    let expected = obj().with_entry("foo", obj().with_entry("bar", obj().with_entry("other", s("v2"))));

    remove_key_at_path(&mut data, &path(&["foo", "bar"]), "key").unwrap();

    assert_eq!(data, expected);
}

#[test]
fn string_value_is_read_back_from_its_full_path() {
    let data = obj().with_entry("foo", obj().with_entry("bar", s("hello")));

    assert_eq!(get_string_at_path(&data, &path(&["foo", "bar"])).unwrap(), "hello");
    assert_eq!(get_string_at_path(&data, &path(&["foo"])), None);
    assert_eq!(get_string_at_path(&data, &path(&["foo", "nope"])), None);
}

#[test]
fn unused_paths_keep_only_the_never_found() {
    let paths = path(&["a.b", "c", "d.e"]);
    let found = vec![true, false, true];

    let unused = filter_unused_paths(&paths, &found);

    assert_eq!(unused, vec!["c".to_owned()]);
}

#[test]
fn well_formedness_checker_spots_unsorted_keys() {
    let sorted = obj().with_entry("a", s("x")).with_entry("b", s("y"));
    assert!(sorted.check_well_formed());

    let unsorted = JsonValue::Object(vec![
        ("b".to_owned(), s("y")),
        ("a".to_owned(), s("x")),
    ]);
    assert!(!unsorted.check_well_formed());
}

#[test]
fn empty_objects_are_invisible_to_enumeration() {
    let data = obj().with_entry("dead", obj()).with_entry("live", s("v"));

    let result = szambo::json::paths::get_json_paths(&data).unwrap();

    assert_eq!(result, vec!["live".to_owned()]);
}
