use mdbook_linkcheck::errors::{
    BrokenLink, EmptyLink, FileNotFound, ForbiddenPath, HttpError, UnsuccessfulStatus,
};
use mdbook_linkcheck::{
    judge_version, load_files_into_memory, match_version, version_check, Document, VersionError,
    VersionMatch,
};

#[test]
fn broken_links_say_what_is_wrong() {
    let empty = EmptyLink::new("chapter_1.md".to_string(), 3);
    assert_eq!(empty.message(), "The link is empty");
    assert_eq!(empty.chapter(), "chapter_1.md");
    assert_eq!(empty.line(), 3);

    let missing = FileNotFound::new("./asdf.png".to_string(), "chapter_1.md".to_string(), 5);
    assert_eq!(missing.message(), "\"./asdf.png\" doesn't exist");
    assert_eq!(missing.line(), 5);

    let forbidden = ForbiddenPath::new("../../etc/shadow".to_string(), "a/b.md".to_string(), 8);
    assert_eq!(
        forbidden.message(),
        "\"../../etc/shadow\" goes outside the book's source directory"
    );
    assert_eq!(forbidden.chapter(), "a/b.md");

    let status = UnsuccessfulStatus::new(
        "https://example.com/".to_string(),
        404,
        "chapter_1.md".to_string(),
        13,
    );
    assert_eq!(status.message(), "\"https://example.com/\" returned 404");
    assert_eq!(status.line(), 13);

    let failed = HttpError::new(
        "https://example.com/".to_string(),
        "chapter_1.md".to_string(),
        21,
        "connection refused".to_string(),
    );
    assert_eq!(
        failed.message(),
        "There was an error while fetching \"https://example.com/\", connection refused"
    );
    assert_eq!(failed.chapter(), "chapter_1.md");
}

#[test]
fn always_stay_compatible_with_mdbook_dependency() {
    let got = version_check(mdbook::MDBOOK_VERSION);

    assert!(
        got.is_ok(),
        "Incompatible with mdbook dependency: {:#?}",
        got.unwrap_err()
    );
}

#[test]
fn other_versions_are_refused() {
    assert_eq!(version_check("0.4.0"), Ok(()));
    assert_eq!(version_check("0.4.99"), Ok(()));
    assert_eq!(version_check("0.3.7"), Err(VersionError::Incompatible));
    assert_eq!(version_check("0.5.0"), Err(VersionError::Incompatible));
    assert_eq!(version_check("1.0.0"), Err(VersionError::Incompatible));
    assert_eq!(version_check("not a version"), Err(VersionError::InvalidVersion));
    assert_eq!(version_check(""), Err(VersionError::InvalidVersion));
}

#[test]
fn chapters_without_a_path_are_not_read() {
    let chapters = vec![
        (Some("index.md".to_string()), "# Index".to_string()),
        (None, "draft".to_string()),
        (Some("nested/one.md".to_string()), "one".to_string()),
    ];
    let files = load_files_into_memory(chapters.clone(), &None);
    assert_eq!(
        files,
        vec![
            Document { path: "index.md".to_string(), text: "# Index".to_string() },
            Document { path: "nested/one.md".to_string(), text: "one".to_string() },
        ]
    );
    let selected = Some(vec!["nested/one.md".to_string(), "other.md".to_string()]);
    let files = load_files_into_memory(chapters.clone(), &selected);
    assert_eq!(files, vec![Document { path: "nested/one.md".to_string(), text: "one".to_string() }]);
    assert!(load_files_into_memory(chapters, &Some(vec![])).is_empty());
}

#[test]
fn a_version_is_judged_by_how_it_stands_to_the_range() {
    assert_eq!(judge_version(VersionMatch::Matches(true)), Ok(()));
    assert_eq!(judge_version(VersionMatch::Matches(false)), Err(VersionError::Incompatible));
    assert_eq!(
        judge_version(VersionMatch::InvalidRequirement),
        Err(VersionError::InvalidRequirement)
    );
    assert_eq!(judge_version(VersionMatch::InvalidVersion), Err(VersionError::InvalidVersion));
}

#[test]
fn a_version_is_held_against_a_requirement() {
    assert_eq!(match_version("^0.4.0", "0.4.5"), VersionMatch::Matches(true));
    assert_eq!(match_version("^0.4.0", "0.5.0"), VersionMatch::Matches(false));
    assert_eq!(match_version(">=1.2, <2", "1.9.9"), VersionMatch::Matches(true));
    assert_eq!(match_version("not a range", "0.4.5"), VersionMatch::InvalidRequirement);
    assert_eq!(match_version("^0.4.0", "zero"), VersionMatch::InvalidVersion);
    assert_eq!(match_version("not a range", "zero"), VersionMatch::InvalidRequirement);
}
