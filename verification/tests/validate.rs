use mdbook_linkcheck::config::WarningPolicy;
use mdbook_linkcheck::error_handling::{
    has_errors, most_specific_error_message, Diagnostic, ErrorHandling, Label, Severity,
    ABSOLUTE_LINK_WARNING_REASONING,
};
use mdbook_linkcheck::links::{Document, IncompleteLink, Link, Span};
use mdbook_linkcheck::validate::{
    collate_links, document_directory, merge_outcomes, sorted, Outcomes, ValidationOutcome,
};
use mdbook_linkcheck::validation::{InvalidLink, NotInSummary, Outcome, Reason};

fn link(href: &str, file: usize, start: u32, end: u32) -> Link {
    Link { href: href.to_string(), span: Span { start, end }, file }
}

fn doc(path: &str) -> Document {
    Document { path: path.to_string(), text: String::new() }
}

fn invalid(href: &str, reason: Reason) -> InvalidLink {
    InvalidLink { link: link(href, 0, 3, 9), reason }
}

#[test]
fn the_directory_of_a_document() {
    assert_eq!(document_directory("/book/src", "index.md"), "/book/src");
    assert_eq!(document_directory("/book/src", "nested/index.md"), "/book/src/nested");
    assert_eq!(document_directory("/book/src", "/nested/index.md"), "/book/src/nested");
    assert_eq!(document_directory("/book/src/", "./a/b/c.md"), "/book/src/a/b");
    assert_eq!(document_directory("/book/src", ""), "/book");
}

#[test]
fn links_are_grouped_by_directory() {
    let files = vec![doc("index.md"), doc("nested/one.md"), doc("other.md"), doc("nested/two.md")];
    let links = vec![
        link("a", 1, 0, 1),
        link("b", 0, 0, 1),
        link("c", 3, 0, 1),
        link("d", 2, 0, 1),
        link("e", 1, 5, 6),
    ];
    let groups = collate_links(&links, "/book/src", &files);
    assert_eq!(
        groups,
        vec![
            (
                "/book/src/nested".to_string(),
                vec![link("a", 1, 0, 1), link("c", 3, 0, 1), link("e", 1, 5, 6)],
            ),
            ("/book/src".to_string(), vec![link("b", 0, 0, 1), link("d", 2, 0, 1)]),
        ]
    );
    assert!(collate_links(&vec![], "/book/src", &files).is_empty());
}

#[test]
fn outcomes_are_ordered_by_document_and_place() {
    let items = vec![
        link("d", 1, 5, 9),
        link("b", 0, 7, 8),
        link("e", 1, 5, 10),
        link("a", 0, 2, 30),
        link("c", 1, 0, 1),
        link("first of two", 0, 7, 8),
    ];
    let got = sorted(items);
    assert_eq!(
        got,
        vec![
            link("a", 0, 2, 30),
            link("b", 0, 7, 8),
            link("first of two", 0, 7, 8),
            link("c", 1, 0, 1),
            link("d", 1, 5, 9),
            link("e", 1, 5, 10),
        ]
    );
    assert_eq!(sorted(got.clone()), got);
    assert!(sorted(Vec::<Link>::new()).is_empty());
}

#[test]
fn merging_keeps_every_outcome() {
    let mut first = Outcomes::empty();
    first.push(Outcome::Valid(link("v2", 1, 0, 1)));
    first.push(Outcome::Ignored(link("i", 0, 0, 1)));
    first.push(Outcome::Invalid(InvalidLink {
        link: link("x2", 2, 0, 1),
        reason: Reason::FileNotFound,
    }));
    let mut second = Outcomes::empty();
    second.push(Outcome::Valid(link("v1", 0, 4, 5)));
    second.push(Outcome::UnknownCategory(link("u", 0, 0, 1)));
    second.push(Outcome::Invalid(InvalidLink {
        link: link("x1", 1, 0, 1),
        reason: Reason::RemoteStatus(500, "https://x1.example/".to_string()),
    }));
    first.merge(second);
    assert_eq!(first.valid, vec![link("v2", 1, 0, 1), link("v1", 0, 4, 5)]);
    assert_eq!(first.invalid.len(), 2);

    let incomplete = vec![IncompleteLink {
        reference: "r".to_string(),
        file: 0,
        span: Span { start: 0, end: 3 },
    }];
    let merged = merge_outcomes(first, incomplete.clone());
    assert_eq!(merged.valid_links, vec![link("v1", 0, 4, 5), link("v2", 1, 0, 1)]);
    assert_eq!(merged.invalid_links[0].link.href, "x1");
    assert_eq!(merged.invalid_links[1].link.href, "x2");
    assert_eq!(merged.ignored, vec![link("i", 0, 0, 1)]);
    assert_eq!(merged.unknown_category, vec![link("u", 0, 0, 1)]);
    assert_eq!(merged.incomplete_links, incomplete);
}

#[test]
fn the_order_of_merging_does_not_show() {
    let a = vec![Outcome::Valid(link("a", 0, 1, 2)), Outcome::Valid(link("c", 2, 1, 2))];
    let b = vec![Outcome::Valid(link("b", 1, 1, 2)), Outcome::Valid(link("d", 0, 0, 1))];
    let mut one = Outcomes::empty();
    let mut other = Outcomes::empty();
    for o in a.iter().chain(b.iter()) {
        one.push(o.clone());
    }
    for o in b.iter().chain(a.iter()) {
        other.push(o.clone());
    }
    assert_eq!(merge_outcomes(one, vec![]), merge_outcomes(other, vec![]));
}

#[test]
fn messages_are_as_specific_as_the_reason() {
    assert_eq!(
        most_specific_error_message(&invalid("./asdf.png", Reason::FileNotFound)),
        "File not found: ./asdf.png"
    );
    assert_eq!(
        most_specific_error_message(&invalid("../x", Reason::TraversesRestrictedDirectory)),
        "Linking outside of the \"root\" directory is forbidden"
    );
    assert_eq!(
        most_specific_error_message(&invalid(
            "sibling.md",
            Reason::NotRegisteredInTableOfContents(NotInSummary { path: "sibling.md".to_string() })
        )),
        "It looks like \"sibling.md\" wasn't included in SUMMARY.md"
    );
    assert_eq!(
        most_specific_error_message(&invalid(
            "https://example.com/x",
            Reason::RemoteStatus(404, "https://example.com/x".to_string())
        )),
        "Server returned 404 Not Found for https://example.com/x"
    );
    assert_eq!(
        most_specific_error_message(&invalid(
            "https://example.com/x",
            Reason::RemoteStatus(500, "https://example.com/x".to_string())
        )),
        "Server returned 500 Internal Server Error for https://example.com/x"
    );
    assert_eq!(
        most_specific_error_message(&invalid(
            "https://example.com/x",
            Reason::RemoteStatus(799, "https://example.com/x".to_string())
        )),
        "Server returned 799 for https://example.com/x"
    );
    assert_eq!(
        most_specific_error_message(&invalid(
            "https://example.com/x",
            Reason::RemoteStatus(7, "https://example.com/x".to_string())
        )),
        "Server returned 7 for https://example.com/x"
    );
    assert_eq!(
        most_specific_error_message(&invalid(
            "https://example.com/x",
            Reason::RemoteTransportError("dns error".to_string())
        )),
        "dns error"
    );
    assert_eq!(
        most_specific_error_message(&invalid(
            "x",
            Reason::CustomPolicyViolation("not like this".to_string())
        )),
        "not like this"
    );
}

fn outcome() -> ValidationOutcome {
    ValidationOutcome {
        valid_links: vec![
            link("./fine.md", 0, 0, 5),
            link("/chapter_1.md", 0, 10, 20),
            link("/nested/README.md", 0, 30, 40),
            link("/chapter_1.md", 1, 3, 9),
            link("/", 1, 10, 12),
        ],
        invalid_links: vec![invalid("./asdf.png", Reason::FileNotFound)],
        ignored: vec![link("https://www.google.com/", 0, 50, 60)],
        unknown_category: vec![],
        incomplete_links: vec![IncompleteLink {
            reference: "incomplete link".to_string(),
            file: 1,
            span: Span { start: 20, end: 37 },
        }],
    }
}

fn files() -> Vec<Document> {
    vec![doc("index.md"), doc("nested/README.md")]
}

#[test]
fn an_absolute_link_gets_a_relative_suggestion() {
    let diags = outcome().generate_diagnostics(&files(), WarningPolicy::Error);
    assert_eq!(diags.len(), 6);
    let suggestions = vec![
        "\"chapter_1.md\"",
        "\"nested/README.md\"",
        "\"../chapter_1.md\"",
    ];
    for (diag, suggestion) in diags[2..5].iter().zip(suggestions.into_iter()) {
        assert_eq!(diag.message, "Absolute link should be made relative");
        assert_eq!(diag.severity, Severity::Error);
        assert!(
            diag.notes.iter().any(|note| note.contains(suggestion)),
            "It should have suggested {} for {:?}",
            suggestion,
            diag
        );
    }
    // Only the first says why, and a link without a file name gets no suggestion.
    assert_eq!(
        diags[2].notes,
        vec![
            ABSOLUTE_LINK_WARNING_REASONING.to_string(),
            "Suggestion: change the link to \"chapter_1.md\"".to_string(),
        ]
    );
    assert_eq!(
        diags[3].notes,
        vec!["Suggestion: change the link to \"nested/README.md\"".to_string()]
    );
    assert!(diags[5].notes.is_empty());
    assert_eq!(diags[5].label.span, Span { start: 10, end: 12 });
}

#[test]
fn reports_come_in_a_fixed_order() {
    let diags = outcome().generate_diagnostics(&files(), WarningPolicy::Warn);
    assert_eq!(
        diags[0],
        Diagnostic {
            severity: Severity::Error,
            message: "File not found: ./asdf.png".to_string(),
            label: Label {
                file: 0,
                span: Span { start: 3, end: 9 },
                message: "File not found: ./asdf.png".to_string(),
            },
            notes: vec![],
        }
    );
    assert_eq!(
        diags[1],
        Diagnostic {
            severity: Severity::Warning,
            message: "Potential incomplete link".to_string(),
            label: Label {
                file: 1,
                span: Span { start: 20, end: 37 },
                message: "Did you forget to define a URL for `incomplete link`?".to_string(),
            },
            notes: vec![
                "hint: declare the link's URL. For example: `[incomplete link]: http://example.com/`"
                    .to_string()
            ],
        }
    );
    assert_eq!(diags[2].severity, Severity::Warning);
    assert_eq!(diags[2].label.file, 0);
    assert_eq!(diags[2].label.span, Span { start: 10, end: 20 });
    assert_eq!(diags[2].label.message, "Absolute link should be made relative");
    assert!(has_errors(&diags));
    assert_eq!(diags, outcome().generate_diagnostics(&files(), WarningPolicy::Warn));
}

#[test]
fn ignored_findings_are_not_reported() {
    let diags = outcome().generate_diagnostics(&files(), WarningPolicy::Ignore);
    assert_eq!(diags.len(), 1);
    assert_eq!(diags[0].severity, Severity::Error);
    let mut clean = outcome();
    clean.invalid_links.clear();
    assert!(clean.generate_diagnostics(&files(), WarningPolicy::Ignore).is_empty());
    let warnings = clean.generate_diagnostics(&files(), WarningPolicy::Warn);
    assert_eq!(warnings.len(), 5);
    assert!(!has_errors(&warnings));
    assert!(has_errors(&clean.generate_diagnostics(&files(), WarningPolicy::Error)));
    assert!(!has_errors(&vec![]));
}

#[test]
fn the_policy_decides_on_single_reports() {
    let handling = ErrorHandling::default();
    assert_eq!(handling.warning_policy, WarningPolicy::Warn);
    assert_eq!(handling.severity(), Some(Severity::Warning));
    assert_eq!(ErrorHandling { warning_policy: WarningPolicy::Ignore }.severity(), None);
    let absolute = link("/a/b.md", 0, 1, 2);
    let report = handling.on_absolute_link(&absolute, false, "a/index.md").unwrap();
    assert_eq!(report.notes, vec!["Suggestion: change the link to \"b.md\"".to_string()]);
    let silent = ErrorHandling { warning_policy: WarningPolicy::Ignore };
    assert_eq!(silent.on_absolute_link(&absolute, true, "a/index.md"), None);
    let incomplete = IncompleteLink {
        reference: "r".to_string(),
        file: 0,
        span: Span { start: 0, end: 3 },
    };
    assert_eq!(silent.on_incomplete_link(&incomplete), None);
    assert_eq!(
        silent.on_invalid_link(&invalid("x", Reason::FileNotFound)).unwrap().severity,
        Severity::Error
    );
}

#[test]
fn a_status_is_reported_for_the_url_that_was_asked_for() {
    let bad = invalid(
        "https://example.com",
        Reason::RemoteStatus(404, "https://example.com/".to_string()),
    );
    assert_eq!(
        most_specific_error_message(&bad),
        "Server returned 404 Not Found for https://example.com/"
    );
    let odd = invalid("https://example.com", Reason::RemoteStatus(1000, "u".to_string()));
    assert_eq!(most_specific_error_message(&odd), "Server returned 1000 for u");
    let low = invalid("https://example.com", Reason::RemoteStatus(99, "u".to_string()));
    assert_eq!(most_specific_error_message(&low), "Server returned 99 for u");
}
