use mdbook_linkcheck::cache::{Cache, CacheEntry};
use mdbook_linkcheck::config::{Config, WarningPolicy};
use mdbook_linkcheck::context::Context;
use mdbook_linkcheck::error_handling::{has_errors, Diagnostic, Severity};
use mdbook_linkcheck::hashed_regex::HashedRegex;
use mdbook_linkcheck::links::{extract, Document};
use mdbook_linkcheck::validate::{
    ensure_included_in_book, filesystem_options, finish_requests, lc_validate, merge_outcomes,
    ValidationOutcome,
};
use mdbook_linkcheck::validation::{FileTree, Reason, WebRequest, WebResponse};

const ROOT: &str = "/book/src";

fn strings(items: &[&str]) -> Vec<String> {
    items.iter().map(|s| s.to_string()).collect()
}

fn book() -> Vec<Document> {
    vec![
        Document {
            path: "chapter_1.md".to_string(),
            text: "# Chapter 1\n\n[text](./sibling.md) and [same](sibling.md)\n\n\
                   [gone](/missing.md) [incomplete link]\n\n\
                   [root](/chapter_1.md#Subheading) <https://forbidden.com/x>\n\n\
                   ![image](./asdf.png) [web](https://example.com/page) [mail](mailto:a@b.c)\n\n\
                   [up](../../../../../../../../../../../../etc/shadow) [dir](nested/)\n"
                .to_string(),
        },
        Document { path: "sibling.md".to_string(), text: "[back](chapter_1.html)".to_string() },
        Document {
            path: "nested/README.md".to_string(),
            text: "[root](/chapter_1.md) [unlisted](./draft.md)".to_string(),
        },
    ]
}

fn disk() -> FileTree {
    FileTree {
        files: strings(&[
            "/book/src/chapter_1.md",
            "/book/src/sibling.md",
            "/book/src/nested/README.md",
            "/book/src/nested/draft.md",
            "/etc/shadow",
        ]),
        directories: strings(&["/book/src", "/book/src/nested", "/etc"]),
    }
}

fn answer(request: &WebRequest) -> WebResponse {
    if request.url.ends_with("/page") {
        WebResponse::Status(200)
    } else {
        WebResponse::Status(404)
    }
}

/// Runs the pipeline on the book, with the web played by `answer`, and tells
/// how many requests were made.
fn run(cfg: &Config, cache: &mut Cache, now: u64) -> (ValidationOutcome, usize) {
    let files = book();
    let (links, incomplete) = extract(cfg, &vec![0, 1, 2], &files).unwrap();
    let options = filesystem_options(cfg, ROOT);
    let tree = disk();
    let rule = ensure_included_in_book(ROOT, files.iter().map(|d| d.path.clone()).collect());
    let headers = cfg.interpolate_headers(&vec![]);
    let ctx = Context {
        cfg,
        filesystem_options: &options,
        tree: &tree,
        custom_validation: &rule,
        interpolated_headers: &headers,
    };
    let (mut outcomes, requests) = lc_validate(&links, ROOT, &ctx, cache, &files, now);
    let asked = requests.len();
    let answers = requests.into_iter().map(|r| { let a = answer(&r); (r, a) }).collect();
    finish_requests(answers, cache, now, &mut outcomes);
    (merge_outcomes(outcomes, incomplete), asked)
}

fn web_config() -> Config {
    Config {
        follow_web_links: true,
        exclude: vec![HashedRegex::new("forbidden\\.com").unwrap()],
        cache_timeout: 100,
        ..Config::default()
    }
}

fn hrefs(links: &[mdbook_linkcheck::Link]) -> Vec<&str> {
    links.iter().map(|l| l.href.as_str()).collect()
}

#[test]
fn a_sibling_that_exists_is_valid() {
    let (outcome, _) = run(&web_config(), &mut Cache::new(), 10);
    assert!(hrefs(&outcome.valid_links).contains(&"./sibling.md"));
    assert!(hrefs(&outcome.valid_links).contains(&"sibling.md"));
}

#[test]
fn a_missing_file_is_reported_as_not_found() {
    let (outcome, _) = run(&web_config(), &mut Cache::new(), 10);
    let missing: Vec<_> = outcome
        .invalid_links
        .iter()
        .filter(|i| i.reason == Reason::FileNotFound)
        .map(|i| i.link.href.as_str())
        .collect();
    assert_eq!(missing, vec!["/missing.md", "./asdf.png"]);
}

#[test]
fn a_reference_without_definition_is_reported_once() {
    let (outcome, _) = run(&web_config(), &mut Cache::new(), 10);
    assert_eq!(outcome.incomplete_links.len(), 1);
    assert_eq!(outcome.incomplete_links[0].reference, "incomplete link");
    assert_eq!(outcome.incomplete_links[0].file, 0);
}

#[test]
fn an_excluded_link_is_ignored_and_not_requested() {
    let mut cache = Cache::new();
    let (outcome, asked) = run(&web_config(), &mut cache, 10);
    assert_eq!(hrefs(&outcome.ignored), vec!["https://forbidden.com/x"]);
    assert_eq!(asked, 1);
    assert_eq!(cache.lookup("https://forbidden.com/x"), None);
    assert_eq!(cache.lookup("https://example.com/page"), Some(CacheEntry::new(10, true)));
}

#[test]
fn a_valid_absolute_link_still_gets_a_style_report() {
    let (outcome, _) = run(&web_config(), &mut Cache::new(), 10);
    assert!(hrefs(&outcome.valid_links).contains(&"/chapter_1.md#Subheading"));
    let diags = outcome.generate_diagnostics(&book(), WarningPolicy::Warn);
    let style: Vec<&Diagnostic> = diags
        .iter()
        .filter(|d| d.message == "Absolute link should be made relative")
        .collect();
    assert_eq!(style.len(), 2);
    assert!(style.iter().all(|d| d.severity == Severity::Warning));
    assert_eq!(
        style[0].notes[1],
        "Suggestion: change the link to \"chapter_1.md#Subheading\""
    );
    assert_eq!(style[1].notes, vec!["Suggestion: change the link to \"../chapter_1.md\""]);
    assert_eq!(style[1].label.file, 2);
}

#[test]
fn the_whole_book() {
    let mut cache = Cache::new();
    let (outcome, asked) = run(&web_config(), &mut cache, 10);
    assert_eq!(asked, 1);
    assert_eq!(
        hrefs(&outcome.valid_links),
        vec![
            "./sibling.md",
            "sibling.md",
            "/chapter_1.md#Subheading",
            "https://example.com/page",
            "nested/",
            "chapter_1.html",
            "/chapter_1.md",
        ]
    );
    let invalid: Vec<_> =
        outcome.invalid_links.iter().map(|i| (i.link.href.as_str(), i.reason.clone())).collect();
    assert_eq!(
        invalid,
        vec![
            ("/missing.md", Reason::FileNotFound),
            ("./asdf.png", Reason::FileNotFound),
            (
                "../../../../../../../../../../../../etc/shadow",
                Reason::TraversesRestrictedDirectory
            ),
            (
                "./draft.md",
                Reason::NotRegisteredInTableOfContents(mdbook_linkcheck::NotInSummary {
                    path: "nested/draft.md".to_string()
                })
            ),
        ]
    );
    assert_eq!(hrefs(&outcome.unknown_category), vec!["mailto:a@b.c"]);
    let diags = outcome.generate_diagnostics(&book(), WarningPolicy::Warn);
    assert!(has_errors(&diags));
    assert_eq!(diags.len(), 4 + 1 + 2);
}

#[test]
fn web_links_are_skipped_unless_followed() {
    let (outcome, asked) = run(&Config::default(), &mut Cache::new(), 10);
    assert_eq!(asked, 0);
    assert_eq!(
        hrefs(&outcome.ignored),
        vec!["https://forbidden.com/x", "https://example.com/page"]
    );
    assert_eq!(hrefs(&outcome.unknown_category), vec!["mailto:a@b.c"]);
}

#[test]
fn leaving_the_book_is_allowed_on_request() {
    let cfg = Config { traverse_parent_directories: true, ..web_config() };
    let (outcome, _) = run(&cfg, &mut Cache::new(), 10);
    assert!(hrefs(&outcome.valid_links)
        .contains(&"../../../../../../../../../../../../etc/shadow"));
    assert!(outcome
        .invalid_links
        .iter()
        .all(|i| i.reason != Reason::TraversesRestrictedDirectory));
}

#[test]
fn a_second_run_asks_nothing_and_reports_the_same() {
    let cfg = web_config();
    let mut cache = Cache::new();
    let (first, asked) = run(&cfg, &mut cache, 10);
    assert_eq!(asked, 1);
    let (second, asked) = run(&cfg, &mut cache, 50);
    assert_eq!(asked, 0);
    assert_eq!(first, second);
    assert_eq!(
        first.generate_diagnostics(&book(), WarningPolicy::Warn),
        second.generate_diagnostics(&book(), WarningPolicy::Warn)
    );
    // With the cache as it was, the run repeats itself to the letter.
    let (again, asked) = run(&cfg, &mut Cache::new(), 10);
    assert_eq!(asked, 1);
    assert_eq!(again, first);
    // Once the timeout has passed, the web is asked again.
    let (_, asked) = run(&cfg, &mut cache, 110);
    assert_eq!(asked, 1);
}
