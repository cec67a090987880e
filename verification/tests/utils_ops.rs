use szambo::utils::{
    get_file_stem, get_path_and_key, parse_limit, validate_paths_and_updates_file_keys_match,
    validate_required_keys_exist,
};

fn updates(entries: &[(&str, &str)]) -> Vec<(String, String)> {
    entries.iter().map(|(k, v)| (k.to_string(), v.to_string())).collect()
}

fn paths(ps: &[&str]) -> Vec<String> {
    ps.iter().map(|p| p.to_string()).collect()
}

#[test]
fn should_return_ok_when_paths_match_updates_file() {
    let updates = updates(&[("en", "en_value"), ("sv", "sv_value")]);
    let paths = paths(&["files/en.json", "files/sv.json"]);
    let result = validate_paths_and_updates_file_keys_match(&updates, &paths);
    assert_eq!(result.unwrap(), ());
}

#[test]
fn should_return_err_if_updates_file_misses_one_key() {
    let updates = updates(&[("en", "en_value")]);
    let paths = paths(&["files/en.json", "files/sv.json"]);
    let result = validate_paths_and_updates_file_keys_match(&updates, &paths);
    assert_eq!(result.unwrap_err().message(), "Updates file misses 'sv' key!");
}

#[test]
fn should_return_err_if_updates_file_misses_multiple_keys() {
    let updates = updates(&[]);
    let paths = paths(&["files/en.json", "files/sv.json"]);
    let result = validate_paths_and_updates_file_keys_match(&updates, &paths);
    assert_eq!(result.unwrap_err().message(), "Updates file misses 'en', 'sv' keys!");
}

#[test]
fn should_return_err_if_updates_file_has_additional_key() {
    let updates = updates(&[("en", "en_value"), ("sv", "sv_value")]);
    let paths = paths(&["files/en.json"]);
    let result = validate_paths_and_updates_file_keys_match(&updates, &paths);
    assert_eq!(result.unwrap_err().message(), "Updates file has additional 'sv' key!");
}

#[test]
fn should_return_err_if_updates_file_has_multiple_additional_keys() {
    let updates = updates(&[("en", "en_value"), ("sv", "sv_value")]);
    let paths = paths(&[]);
    let result = validate_paths_and_updates_file_keys_match(&updates, &paths);
    assert_eq!(
        result.unwrap_err().message(),
        "Updates file has additional 'en', 'sv' key!"
    );
}

#[test]
fn should_return_file_stem_for_valid_paths() {
    let cases = [
        ("foo.json", "foo"),
        ("files/foo.json", "foo"),
        ("./files/foo.json", "foo"),
        ("foo", "foo"),
        ("files/foo", "foo"),
        ("./files/foo", "foo"),
    ];

    for (input, expected) in cases {
        let result = get_file_stem(input);
        assert_eq!(result.unwrap(), expected, "Failed on input: {}", input);
    }
}

#[test]
fn should_return_error_for_empty_string() {
    let result = get_file_stem("");
    assert_eq!(result.unwrap_err().message(), "Can't get file stem! Empty string!");
}

#[test]
fn should_return_error_for_path_without_file_name() {
    let result = get_file_stem("..");
    assert_eq!(result.unwrap_err().message(), "Can't get file stem!");
}

#[test]
fn should_keep_the_leading_dot_of_a_dotfile_stem() {
    assert_eq!(get_file_stem(".gitignore").unwrap(), ".gitignore");
    assert_eq!(get_file_stem("dir/archive.tar.gz").unwrap(), "archive.tar");
}

#[test]
fn should_split_dotless_string_into_empty_path_and_whole_key() {
    let (path, key) = get_path_and_key("translation").unwrap();
    assert_eq!(path, Vec::<String>::new());
    assert_eq!(key, "translation");
}

#[test]
fn should_split_dotted_string_at_its_last_dot() {
    let (path, key) = get_path_and_key("foo.bar.baz").unwrap();
    assert_eq!(path, vec!["foo".to_owned(), "bar".to_owned()]);
    assert_eq!(key, "baz");
}

#[test]
fn should_parse_comma_separated_limit_list() {
    assert_eq!(parse_limit("en,sv"), vec!["en".to_owned(), "sv".to_owned()]);
    assert_eq!(parse_limit("en"), vec!["en".to_owned()]);
}

#[test]
fn should_accept_required_keys_present_in_updates() {
    let updates = updates(&[("en", "x"), ("sv", "y")]);
    let required = paths(&["sv"]);
    assert_eq!(validate_required_keys_exist(&updates, &required).unwrap(), ());
}

#[test]
fn should_refuse_required_keys_absent_from_updates() {
    let updates = updates(&[("en", "x")]);
    let required = paths(&["en", "sv"]);
    let result = validate_required_keys_exist(&updates, &required);
    assert_eq!(result.unwrap_err().message(), "Updates file misses 'sv' key!");
}
