use mdbook_linkcheck::config::Config;
use mdbook_linkcheck::latex::ByteIndexMap;
use mdbook_linkcheck::links::{
    extract, locate_found, scan_document, Document, Found, IncompleteLink, Link, ScanError, Span,
};

fn doc(path: &str, text: &str) -> Document {
    Document { path: path.to_string(), text: text.to_string() }
}

#[test]
fn a_document_without_links_has_none() {
    let (links, incomplete) = scan_document("# Heading\n\nJust some text.\n", false, 0).unwrap();
    assert!(links.is_empty());
    assert!(incomplete.is_empty());
    let (links, incomplete) = scan_document("# Heading\n\nJust some text.\n", true, 0).unwrap();
    assert!(links.is_empty());
    assert!(incomplete.is_empty());
    let (links, incomplete) = scan_document("", false, 3).unwrap();
    assert!(links.is_empty());
    assert!(incomplete.is_empty());
}

#[test]
fn links_and_images_are_found_with_their_place() {
    let src = "This is a [link](https://example.com/) and an ![Image](img.png)";
    let (links, incomplete) = scan_document(src, false, 7).unwrap();
    assert_eq!(
        links,
        vec![
            Link {
                href: "https://example.com/".to_string(),
                span: Span { start: 10, end: 38 },
                file: 7,
            },
            Link { href: "img.png".to_string(), span: Span { start: 46, end: 63 }, file: 7 },
        ]
    );
    assert!(incomplete.is_empty());
    assert_eq!(&src[10..38], "[link](https://example.com/)");
}

#[test]
fn a_reference_without_definition_is_incomplete() {
    let src = "See [ref] for more.";
    let (links, incomplete) = scan_document(src, false, 2).unwrap();
    assert!(links.is_empty());
    assert_eq!(
        incomplete,
        vec![IncompleteLink {
            reference: "ref".to_string(),
            file: 2,
            span: Span { start: 4, end: 9 },
        }]
    );
}

#[test]
fn a_reference_with_definition_is_a_link() {
    let src = "See [ref] for more.\n\n[ref]: ./other.md\n";
    let (links, incomplete) = scan_document(src, false, 0).unwrap();
    assert_eq!(links.len(), 1);
    assert_eq!(links[0].href, "./other.md");
    assert!(incomplete.is_empty());
}

#[test]
fn places_lead_back_into_the_text_that_was_written() {
    let src = "Euler: $$e^{i\\pi} + 1 = 0$$ and [a link](./a.md), then $x$ and [ref].";
    let (links, incomplete) = scan_document(src, true, 1).unwrap();
    assert_eq!(links.len(), 1);
    let at = src.find("[a link]").unwrap();
    assert_eq!(links[0].href, "./a.md");
    assert_eq!(links[0].span.start as usize, at);
    assert_eq!(links[0].span.end as usize, at + "[a link](./a.md)".len());
    assert_eq!(incomplete.len(), 1);
    assert_eq!(incomplete[0].reference, "ref");
    let at = src.find("[ref]").unwrap();
    assert_eq!(incomplete[0].span, Span { start: at as u32, end: at as u32 + 5 });
}

#[test]
fn latex_is_not_taken_for_a_link() {
    let src = "Math: $$[x](y)$$ done.";
    let (links, _) = scan_document(src, false, 0).unwrap();
    assert_eq!(links.len(), 1);
    let (links, incomplete) = scan_document(src, true, 0).unwrap();
    assert!(links.is_empty());
    assert!(incomplete.is_empty());
}

#[test]
fn latex_support_keeps_plain_documents() {
    let src = "A [link](./a.md), an ![image](b.png) and a [broken] one.";
    assert_eq!(scan_document(src, true, 4).unwrap(), scan_document(src, false, 4).unwrap());
}

#[test]
fn extract_walks_the_documents_in_order() {
    let files = vec![
        doc("index.md", "[one](./one.md)"),
        doc("skipped.md", "[never](./never.md)"),
        doc("nested/two.md", "[two](../two.md) and [missing]"),
    ];
    let cfg = Config::default();
    let (links, incomplete) = extract(&cfg, &vec![2, 0], &files).unwrap();
    assert_eq!(
        links,
        vec![
            Link { href: "../two.md".to_string(), span: Span { start: 0, end: 16 }, file: 2 },
            Link { href: "./one.md".to_string(), span: Span { start: 0, end: 15 }, file: 0 },
        ]
    );
    assert_eq!(incomplete.len(), 1);
    assert_eq!(incomplete[0].reference, "missing");
    assert_eq!(incomplete[0].file, 2);

    let (links, incomplete) = extract(&cfg, &vec![], &files).unwrap();
    assert!(links.is_empty());
    assert!(incomplete.is_empty());
}

#[test]
fn extract_names_the_document_that_fails() {
    let files = vec![doc("fine.md", "[one](./one.md)"), doc("bad.md", "\\(a $$x$$ b\\)")];
    let cfg = Config { latex_support: true, ..Config::default() };
    let err = extract(&cfg, &vec![0, 1], &files).unwrap_err();
    assert_eq!(err.0, 1);
    let cfg = Config::default();
    assert!(extract(&cfg, &vec![0, 1], &files).is_ok());
}

#[test]
fn what_was_found_is_put_in_its_place() {
    let mut map = ByteIndexMap::new();
    assert_eq!(map.update(2, 4, 5), Ok(()));
    let links = vec![Found { text: "a.md".to_string(), start: 0, end: 2 }];
    let references = vec![Found { text: "ref".to_string(), start: 8, end: 10 }];
    let (links, incomplete) = locate_found(&links, &references, &map, 5).unwrap();
    assert_eq!(
        links,
        vec![Link { href: "a.md".to_string(), span: Span { start: 0, end: 2 }, file: 5 }]
    );
    assert_eq!(
        incomplete,
        vec![IncompleteLink {
            reference: "ref".to_string(),
            file: 5,
            span: Span { start: 5, end: 7 },
        }]
    );
}

#[test]
fn a_place_beyond_reach_is_an_error() {
    let far = vec![Found { text: "a.md".to_string(), start: 0, end: usize::MAX }];
    assert_eq!(
        locate_found(&far, &vec![], &ByteIndexMap::new(), 0),
        Err(ScanError::PositionOverflow)
    );
    assert_eq!(
        locate_found(&vec![], &far, &ByteIndexMap::new(), 0),
        Err(ScanError::PositionOverflow)
    );
    let mut map = ByteIndexMap::new();
    assert_eq!(map.update(0, 100, 1), Ok(()));
    let late = vec![Found { text: "a.md".to_string(), start: 10, end: u32::MAX as usize }];
    assert_eq!(locate_found(&late, &vec![], &map, 0), Err(ScanError::PositionOverflow));
}
