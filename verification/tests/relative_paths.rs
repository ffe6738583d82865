use mdbook_linkcheck::paths::relative_path_to_file;

#[test]
fn error_handling_check_some_simple_relative_paths() {
    let inputs = vec![
        ("index.md", "/other.md", "other.md"),
        ("index.md", "/nested/other.md", "nested/other.md"),
        ("nested/index.md", "/other.md", "../other.md"),
    ];

    for (start, destination, should_be) in inputs {
        let got = relative_path_to_file(start, destination).unwrap();
        assert_eq!(got, should_be);
    }
}

#[test]
fn validate_check_some_simple_relative_paths() {
    let inputs = vec![
        ("index.md", "/other.md", "other.md"),
        ("index.md", "/nested/other.md", "nested/other.md"),
        ("nested/index.md", "/other.md", "../other.md"),
    ];

    for (start, destination, should_be) in inputs {
        let got = relative_path_to_file(start, destination).unwrap();
        assert_eq!(got, should_be);
    }
}

#[test]
fn sibling_directories_climb_once() {
    let got = relative_path_to_file("a/b/index.md", "/a/c/other.md").unwrap();
    assert_eq!(got, "../c/other.md");
}

#[test]
fn deeper_start_climbs_for_every_directory() {
    let got = relative_path_to_file("a/b/c/index.md", "/x.md").unwrap();
    assert_eq!(got, "../../../x.md");
}

#[test]
fn no_suggestion_without_a_file_name() {
    assert_eq!(relative_path_to_file("index.md", "/"), None);
    assert_eq!(relative_path_to_file("index.md", "/nested/.."), None);
    assert_eq!(relative_path_to_file("", "/other.md"), None);
}

#[test]
fn no_suggestion_when_the_start_climbs() {
    assert_eq!(relative_path_to_file("../x/index.md", "/a/other.md"), None);
}

#[test]
fn backslashes_become_slashes() {
    let got = relative_path_to_file("index.md", "/a\\b.md").unwrap();
    assert_eq!(got, "a/b.md");
}
