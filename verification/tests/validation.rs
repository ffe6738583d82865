use mdbook_linkcheck::cache::{Cache, CacheEntry};
use mdbook_linkcheck::config::{Config, HttpHeader};
use mdbook_linkcheck::context::Context;
use mdbook_linkcheck::hashed_regex::HashedRegex;
use mdbook_linkcheck::links::{Link, Span};
use mdbook_linkcheck::validate::{ensure_included_in_book, filesystem_options, IncludedInBook};
use mdbook_linkcheck::validation::{
    already_valid, categorise, check_filesystem, check_filesystem_with, check_link,
    finish_request, path_is_outside_book, percent_decode, possible_paths, record_response,
    resolve_link, Category, CustomValidation, FileTree, InvalidLink, NoCustomValidation,
    NotInSummary, Options, Outcome, Reason, Step, WebRequest, WebResponse,
};

fn strings(items: &[&str]) -> Vec<String> {
    items.iter().map(|s| s.to_string()).collect()
}

fn tree() -> FileTree {
    FileTree {
        files: strings(&[
            "/book/src/chapter_1.md",
            "/book/src/sibling.md",
            "/book/src/nested/README.md",
            "/book/src/nested/deep/page.md",
            "/book/src/my file.md",
            "/book/src/image.PNG",
            "/book/outside.md",
            "/etc/shadow",
        ]),
        directories: strings(&["/book", "/book/src", "/book/src/nested", "/book/src/nested/deep"]),
    }
}

fn options(traverse: bool) -> Options {
    Options {
        root_directory: "/book/src".to_string(),
        default_file: "README.md".to_string(),
        links_may_traverse_the_root_directory: traverse,
        alternate_extensions: vec![("html".to_string(), strings(&["md"]))],
    }
}

fn link(href: &str) -> Link {
    Link { href: href.to_string(), span: Span { start: 1, end: 2 }, file: 0 }
}

#[test]
fn links_are_sorted_by_what_they_point_at() {
    assert_eq!(
        categorise("https://example.com/"),
        Category::Url("https://example.com/".to_string())
    );
    assert_eq!(
        categorise("HTTP://Example.com"),
        Category::Url("http://example.com/".to_string())
    );
    assert_eq!(
        categorise("README.md"),
        Category::FileSystem { path: "README.md".to_string(), fragment: None }
    );
    assert_eq!(
        categorise("./README.md#license"),
        Category::FileSystem {
            path: "./README.md".to_string(),
            fragment: Some("license".to_string()),
        }
    );
    assert_eq!(
        categorise("/chapter_1.md#Subheading"),
        Category::FileSystem {
            path: "/chapter_1.md".to_string(),
            fragment: Some("Subheading".to_string()),
        }
    );
    assert_eq!(categorise("#heading"), Category::CurrentFile { anchor: "heading".to_string() });
    assert_eq!(categorise(""), Category::CurrentFile { anchor: String::new() });
    assert_eq!(
        categorise("file:///book/src/chapter_1.md"),
        Category::FileSystem { path: "/book/src/chapter_1.md".to_string(), fragment: None }
    );
    assert_eq!(categorise("mailto:michael@example.com"), Category::Unknown);
    assert_eq!(categorise("ftp://example.com/file"), Category::Unknown);
}

#[test]
fn percent_escapes_are_decoded() {
    assert_eq!(percent_decode("my%20file.md"), "my file.md");
    assert_eq!(percent_decode("plain.md"), "plain.md");
    assert_eq!(percent_decode("caf%C3%A9.md"), "caf\u{e9}.md");
    assert_eq!(percent_decode("caf\u{e9}%2Fx"), "caf\u{e9}/x");
    assert_eq!(percent_decode("100%.md"), "100%.md");
    assert_eq!(percent_decode("bad%zzescape%2"), "bad%zzescape%2");
    assert_eq!(percent_decode("%41%4a%4A"), "AJJ");
    // Bytes that are no text leave the path as it is written.
    assert_eq!(percent_decode("broken%FF.md"), "broken%FF.md");
}

#[test]
fn a_sibling_that_exists_is_found() {
    let got = resolve_link("/book/src", "./sibling.md", &options(false), &tree());
    assert_eq!(got, Ok("/book/src/sibling.md".to_string()));
    let got = resolve_link("/book/src/nested", "../sibling.md", &options(false), &tree());
    assert_eq!(got, Ok("/book/src/sibling.md".to_string()));
    let got = resolve_link("/book/src/nested", "deep/../deep/./page.md", &options(false), &tree());
    assert_eq!(got, Ok("/book/src/nested/deep/page.md".to_string()));
}

#[test]
fn a_link_from_the_root_that_is_missing_is_not_found() {
    let got = resolve_link("/book/src/nested", "/missing.md", &options(false), &tree());
    assert_eq!(got, Err(Reason::FileNotFound));
    let got = resolve_link("/book/src/nested", "missing.md", &options(false), &tree());
    assert_eq!(got, Err(Reason::FileNotFound));
}

#[test]
fn links_with_a_leading_slash_are_relative_to_the_root() {
    let got = resolve_link("/book/src/nested/deep", "/chapter_1.md", &options(false), &tree());
    assert_eq!(got, Ok("/book/src/chapter_1.md".to_string()));
    let got = resolve_link("/book/src/nested/deep", "/nested", &options(false), &tree());
    assert_eq!(got, Ok("/book/src/nested/README.md".to_string()));
}

#[test]
fn markdown_files_can_be_linked_to_as_html() {
    let got = resolve_link("/book/src", "./chapter_1.html", &options(false), &tree());
    assert_eq!(got, Ok("/book/src/chapter_1.md".to_string()));
    let got = resolve_link("/book/src", "./chapter_1.HTML", &options(false), &tree());
    assert_eq!(got, Ok("/book/src/chapter_1.md".to_string()));
    let got = resolve_link("/book/src", "./chapter_2.html", &options(false), &tree());
    assert_eq!(got, Err(Reason::FileNotFound));
    let mut plain = options(false);
    plain.alternate_extensions = vec![];
    let got = resolve_link("/book/src", "./chapter_1.html", &plain, &tree());
    assert_eq!(got, Err(Reason::FileNotFound));
}

#[test]
fn a_directory_stands_for_its_default_file() {
    let got = resolve_link("/book/src", "nested/", &options(false), &tree());
    assert_eq!(got, Ok("/book/src/nested/README.md".to_string()));
    let got = resolve_link("/book/src", "nested/deep", &options(false), &tree());
    assert_eq!(got, Err(Reason::FileNotFound));
}

#[test]
fn leaving_the_root_is_refused_unless_allowed() {
    let bad = "../../../../../../../../../../../../etc/shadow";
    let got = resolve_link("/book/src/nested", bad, &options(false), &tree());
    assert_eq!(got, Err(Reason::TraversesRestrictedDirectory));
    let got = resolve_link("/book/src/nested", bad, &options(true), &tree());
    assert_eq!(got, Ok("/etc/shadow".to_string()));

    let got = resolve_link("/book/src", "../outside.md", &options(false), &tree());
    assert_eq!(got, Err(Reason::TraversesRestrictedDirectory));
    let got = resolve_link("/book/src", "../outside.md", &options(true), &tree());
    assert_eq!(got, Ok("/book/outside.md".to_string()));

    let got = resolve_link("/book/src", "../nowhere.md", &options(false), &tree());
    assert_eq!(got, Err(Reason::TraversesRestrictedDirectory));
    let got = resolve_link("/book/src", "../nowhere.md", &options(true), &tree());
    assert_eq!(got, Err(Reason::FileNotFound));
}

#[test]
fn a_path_is_decoded_before_it_is_resolved() {
    let got =
        check_filesystem("/book/src", "my%20file.md", None, &options(false), &tree(), &NoCustomValidation);
    assert_eq!(got, Ok(()));
    let got =
        check_filesystem("/book/src", "my file.md", None, &options(false), &tree(), &NoCustomValidation);
    assert_eq!(got, Ok(()));
    let got =
        check_filesystem("/book/src", "my%2520file.md", None, &options(false), &tree(), &NoCustomValidation);
    assert_eq!(got, Err(Reason::FileNotFound));
}

fn book() -> IncludedInBook {
    ensure_included_in_book("/book/src", strings(&["chapter_1.md", "nested/index.md"]))
}

#[test]
fn a_file_outside_of_the_summary_is_refused() {
    let rule = book();
    assert_eq!(rule.validate("/book/src/chapter_1.md", None), Ok(()));
    assert_eq!(rule.validate("/book/src/nested/README.md", Some("top")), Ok(()));
    assert_eq!(
        rule.validate("/book/src/sibling.md", None),
        Err(Reason::NotRegisteredInTableOfContents(NotInSummary {
            path: "sibling.md".to_string()
        }))
    );
    assert_eq!(
        rule.validate("/book/src/nested/deep/page.md", None),
        Err(Reason::NotRegisteredInTableOfContents(NotInSummary {
            path: "nested/deep/page.md".to_string()
        }))
    );
    // What is no markdown, or lies outside of the book, is not the rule's business.
    assert_eq!(rule.validate("/book/src/image.PNG", None), Ok(()));
    assert_eq!(rule.validate("/book/outside.md", None), Ok(()));
    assert_eq!(
        NotInSummary { path: "sibling.md".to_string() }.message(),
        "It looks like \"sibling.md\" wasn't included in SUMMARY.md"
    );
}

#[test]
fn a_missing_file_is_missing_whatever_the_summary_says() {
    let got = check_filesystem("/book/src", "./gone.md", None, &options(false), &tree(), &book());
    assert_eq!(got, Err(Reason::FileNotFound));
    let got = check_filesystem("/book/src", "./sibling.md", None, &options(false), &tree(), &book());
    assert_eq!(
        got,
        Err(Reason::NotRegisteredInTableOfContents(NotInSummary {
            path: "sibling.md".to_string()
        }))
    );
    let got = check_filesystem("/book/src", "./chapter_1.html", None, &options(false), &tree(), &book());
    assert_eq!(got, Ok(()));
}

#[test]
fn the_paths_to_look_at() {
    assert_eq!(
        possible_paths("/book/src/nested", "../chapter%201.html", &options(false)),
        strings(&["/book/src/chapter 1.html", "/book/src/chapter 1.md"])
    );
    assert_eq!(
        possible_paths("/book/src/nested", "/a/./b.md", &options(false)),
        strings(&["/book/src/a/b.md"])
    );
    assert_eq!(possible_paths("/book/src", "..", &options(false)), strings(&["/book"]));
}

#[test]
fn paths_outside_of_the_book() {
    assert!(path_is_outside_book("../../etc/shadow", "/book/src/chapter_1.md", "/book/src"));
    assert!(path_is_outside_book("../x.md", "/book/src/chapter_1.md", "/book/src"));
    assert!(!path_is_outside_book("../x.md", "/book/src/nested/one.md", "/book/src"));
    assert!(!path_is_outside_book("./x.md", "/book/src/chapter_1.md", "/book/src"));
    assert!(!path_is_outside_book("x.md", "/", "/book/src"));
}

fn check(href: &str, cfg: &Config, cache: &mut Cache, now: u64) -> Step {
    let options = filesystem_options(cfg, "/book/src");
    let tree = tree();
    let rule = book();
    let headers = cfg.interpolate_headers(&vec![("TOKEN".to_string(), "abc".to_string())]);
    let ctx = Context {
        cfg,
        filesystem_options: &options,
        tree: &tree,
        custom_validation: &rule,
        interpolated_headers: &headers,
    };
    check_link(link(href), "/book/src", &ctx, cache, now)
}

fn web_config() -> Config {
    Config {
        follow_web_links: true,
        exclude: vec![HashedRegex::new("forbidden\\.com").unwrap()],
        http_headers: vec![
            (
                HashedRegex::new("crates\\.io").unwrap(),
                vec![
                    HttpHeader::from_str("Accept: text/html").unwrap(),
                    HttpHeader::from_str("X-Missing: $NOPE").unwrap(),
                ],
            ),
            (
                HashedRegex::new("^https://").unwrap(),
                vec![HttpHeader::from_str("Authorization: Basic $TOKEN").unwrap()],
            ),
        ],
        cache_timeout: 100,
        ..Config::default()
    }
}

#[test]
fn the_options_of_a_book() {
    let cfg = Config { traverse_parent_directories: true, ..Config::default() };
    assert_eq!(
        filesystem_options(&cfg, "/book/src"),
        Options {
            root_directory: "/book/src".to_string(),
            default_file: "README.md".to_string(),
            links_may_traverse_the_root_directory: true,
            alternate_extensions: vec![("html".to_string(), strings(&["md"]))],
        }
    );
    assert!(!filesystem_options(&Config::default(), "/x").links_may_traverse_the_root_directory);
}

#[test]
fn local_links_are_judged_by_the_files() {
    let cfg = Config::default();
    let mut cache = Cache::new();
    assert_eq!(
        check("./chapter_1.md", &cfg, &mut cache, 0),
        Step::Done(Outcome::Valid(link("./chapter_1.md")))
    );
    assert_eq!(
        check("/missing.md", &cfg, &mut cache, 0),
        Step::Done(Outcome::Invalid(InvalidLink {
            link: link("/missing.md"),
            reason: Reason::FileNotFound,
        }))
    );
    assert_eq!(
        check("sibling.md", &cfg, &mut cache, 0),
        Step::Done(Outcome::Invalid(InvalidLink {
            link: link("sibling.md"),
            reason: Reason::NotRegisteredInTableOfContents(NotInSummary {
                path: "sibling.md".to_string()
            }),
        }))
    );
    assert_eq!(
        check("../outside.md", &cfg, &mut cache, 0),
        Step::Done(Outcome::Invalid(InvalidLink {
            link: link("../outside.md"),
            reason: Reason::TraversesRestrictedDirectory,
        }))
    );
    assert_eq!(check("#top", &cfg, &mut cache, 0), Step::Done(Outcome::Ignored(link("#top"))));
    assert!(cache.entries().is_empty());
}

#[test]
fn web_links_are_ignored_unless_followed() {
    let cfg = Config::default();
    let mut cache = Cache::new();
    assert_eq!(
        check("https://www.google.com/", &cfg, &mut cache, 0),
        Step::Done(Outcome::Ignored(link("https://www.google.com/")))
    );
    assert_eq!(
        check("http://example.com/a#b", &cfg, &mut cache, 0),
        Step::Done(Outcome::Ignored(link("http://example.com/a#b")))
    );
    assert_eq!(
        check("mailto:someone@example.com", &cfg, &mut cache, 0),
        Step::Done(Outcome::UnknownCategory(link("mailto:someone@example.com")))
    );
    let cfg = web_config();
    assert_eq!(
        check("mailto:someone@example.com", &cfg, &mut cache, 0),
        Step::Done(Outcome::UnknownCategory(link("mailto:someone@example.com")))
    );
}

#[test]
fn excluded_links_are_ignored_and_not_requested() {
    let cfg = web_config();
    let mut cache = Cache::new();
    assert_eq!(
        check("https://forbidden.com/x", &cfg, &mut cache, 0),
        Step::Done(Outcome::Ignored(link("https://forbidden.com/x")))
    );
    assert_eq!(cache.cache_hits() + cache.cache_misses(), 0);
}

#[test]
fn a_web_link_is_requested_with_the_headers_of_its_site() {
    let cfg = web_config();
    let mut cache = Cache::new();
    assert_eq!(
        check("https://crates.io/crates/mdbook-linkcheck", &cfg, &mut cache, 0),
        Step::Request(WebRequest {
            link: link("https://crates.io/crates/mdbook-linkcheck"),
            url: "https://crates.io/crates/mdbook-linkcheck".to_string(),
            user_agent: "mdbook-linkcheck-0.7.7".to_string(),
            headers: vec![
                ("accept".to_string(), "text/html".to_string()),
                ("authorization".to_string(), "Basic abc".to_string()),
            ],
        })
    );
    assert_eq!(
        check("http://example.com", &cfg, &mut cache, 0),
        Step::Request(WebRequest {
            link: link("http://example.com"),
            url: "http://example.com/".to_string(),
            user_agent: "mdbook-linkcheck-0.7.7".to_string(),
            headers: vec![],
        })
    );
}

#[test]
fn a_young_successful_entry_spares_the_request() {
    let cfg = web_config();
    let mut cache = Cache::new();
    cache.insert("https://example.com/".to_string(), CacheEntry::new(1_000, true));
    cache.insert("https://example.org/".to_string(), CacheEntry::new(1_000, false));
    assert_eq!(
        check("https://example.com/", &cfg, &mut cache, 1_099),
        Step::Done(Outcome::Valid(link("https://example.com/")))
    );
    assert_eq!(
        check("https://example.com", &cfg, &mut cache, 1_050),
        Step::Done(Outcome::Valid(link("https://example.com")))
    );
    // Too old, or not successful: the request is made again.
    assert!(matches!(check("https://example.com/", &cfg, &mut cache, 1_100), Step::Request(_)));
    assert!(matches!(check("https://example.org/", &cfg, &mut cache, 1_001), Step::Request(_)));
    assert!(already_valid("https://example.com/", &mut cache, 1_000, 1));
    assert!(!already_valid("https://example.com/", &mut cache, 999, 100));
    assert!(!already_valid("https://nowhere.example/", &mut cache, 1_000, 100));
}

fn request(url: &str) -> WebRequest {
    WebRequest {
        link: link(url),
        url: url.to_string(),
        user_agent: "tester".to_string(),
        headers: vec![],
    }
}

#[test]
fn a_response_is_judged_and_remembered() {
    let mut cache = Cache::new();
    let url = "https://example.com/";
    assert_eq!(
        finish_request(request(url), WebResponse::Status(200), &mut cache, 7),
        Outcome::Valid(link(url))
    );
    assert_eq!(cache.lookup(url), Some(CacheEntry::new(7, true)));
    assert_eq!(
        finish_request(request(url), WebResponse::Status(404), &mut cache, 8),
        Outcome::Invalid(InvalidLink {
            link: link(url),
            reason: Reason::RemoteStatus(404, url.to_string()),
        })
    );
    assert_eq!(cache.lookup(url), Some(CacheEntry::new(8, false)));
    assert_eq!(
        finish_request(request(url), WebResponse::Failed("timed out".to_string()), &mut cache, 9),
        Outcome::Invalid(InvalidLink {
            link: link(url),
            reason: Reason::RemoteTransportError("timed out".to_string()),
        })
    );
    assert_eq!(cache.lookup(url), Some(CacheEntry::new(9, false)));
    assert_eq!(record_response(url, WebResponse::Status(299), &mut cache, 10), Ok(()));
    assert_eq!(
        record_response(url, WebResponse::Status(300), &mut cache, 11),
        Err(Reason::RemoteStatus(300, url.to_string()))
    );
    assert_eq!(
        record_response(url, WebResponse::Status(199), &mut cache, 12),
        Err(Reason::RemoteStatus(199, url.to_string()))
    );
    assert_eq!(cache.entries().len(), 1);
}

#[test]
fn a_repeated_check_makes_no_second_request() {
    let cfg = web_config();
    let mut cache = Cache::new();
    let href = "https://example.com/page";
    let first = check(href, &cfg, &mut cache, 50);
    let asked = match first {
        Step::Request(asked) => asked,
        other => panic!("unexpected: {:?}", other),
    };
    assert_eq!(
        finish_request(asked, WebResponse::Status(204), &mut cache, 50),
        Outcome::Valid(link(href))
    );
    assert_eq!(check(href, &cfg, &mut cache, 51), Step::Done(Outcome::Valid(link(href))));
    assert_eq!(check(href, &cfg, &mut cache, 149), Step::Done(Outcome::Valid(link(href))));
    assert!(matches!(check(href, &cfg, &mut cache, 150), Step::Request(_)));
}

fn no_images(resolved: &str, _fragment: Option<&str>) -> Result<(), Reason> {
    if resolved.ends_with(".PNG") {
        Err(Reason::CustomPolicyViolation(format!("\"{}\" is an image", resolved)))
    } else {
        Ok(())
    }
}

#[test]
fn a_rule_of_the_callers_own_is_asked_last() {
    let got =
        check_filesystem_with("/book/src", "image.PNG", None, &options(false), &tree(), no_images);
    assert_eq!(
        got,
        Err(Reason::CustomPolicyViolation("\"/book/src/image.PNG\" is an image".to_string()))
    );
    let got =
        check_filesystem_with("/book/src", "gone.PNG", None, &options(false), &tree(), no_images);
    assert_eq!(got, Err(Reason::FileNotFound));
    let got =
        check_filesystem_with("/book/src", "sibling.md", None, &options(false), &tree(), no_images);
    assert_eq!(got, Ok(()));
    let seen = std::cell::RefCell::new(Vec::new());
    let got = check_filesystem_with(
        "/book/src",
        "nested/",
        Some("top"),
        &options(false),
        &tree(),
        |resolved: &str, fragment: Option<&str>| {
            seen.borrow_mut().push((resolved.to_string(), fragment.map(String::from)));
            Ok(())
        },
    );
    assert_eq!(got, Ok(()));
    assert_eq!(
        seen.into_inner(),
        vec![("/book/src/nested/README.md".to_string(), Some("top".to_string()))]
    );
}
