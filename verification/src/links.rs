//! Finding the links of markdown documents, each with the place it has in
//! the text that was written.

use crate::config::Config;
use crate::latex::{
    avoids_tokens, faithful, filter_out_latex, filter_spec, free_of_latex,
    lemma_filter_leaves_plain_text, lemma_found_text_is_source_text,
    lemma_range_is_mapped_in_order, outside_tokens, resolve_spec, well_formed, without_empty, Breakpoint, ByteIndexMap,
    FilterError,
};
use vstd::prelude::*;
use vstd::utf8::encode_utf8;

verus! {

/// A range of bytes in a document.
#[derive(Debug, Clone, Copy, PartialEq, Eq, Structural)]
pub struct Span {
    /// The first byte of the range.
    pub start: u32,
    /// The byte behind the range.
    pub end: u32,
}

/// A link to some other resource.
#[derive(Debug, Clone, PartialEq, Eq)]
pub struct Link {
    /// The link itself.
    pub href: String,
    /// Where the link lies in the text of its document.
    pub span: Span,
    /// Which document does this link belong to?
    pub file: usize,
}

/// What a [`Link`] holds.
pub struct LinkView {
    /// The link itself.
    pub href: Seq<char>,
    /// Where the link lies in the text of its document.
    pub span: Span,
    /// The document of the link.
    pub file: usize,
}

impl View for Link {
    type V = LinkView;

    open spec fn view(&self) -> LinkView {
        LinkView { href: self.href@, span: self.span, file: self.file }
    }
}

/// A potential link that has a broken reference (e.g `[foo]` when there is no
/// `[foo]: ...` entry at the bottom).
#[derive(Debug, Clone, PartialEq, Eq)]
pub struct IncompleteLink {
    /// The reference name (e.g. the `foo` in `[foo]`).
    pub reference: String,
    /// Which document was the incomplete link found in?
    pub file: usize,
    /// Where this incomplete link occurred in the source text.
    pub span: Span,
}

/// What an [`IncompleteLink`] holds.
pub struct IncompleteLinkView {
    /// The reference name.
    pub reference: Seq<char>,
    /// The document of the reference.
    pub file: usize,
    /// Where the reference lies in the text of its document.
    pub span: Span,
}

impl View for IncompleteLink {
    type V = IncompleteLinkView;

    open spec fn view(&self) -> IncompleteLinkView {
        IncompleteLinkView { reference: self.reference@, file: self.file, span: self.span }
    }
}

/// A document of the book: where it lies in the book, and its text.
#[derive(Debug, Clone, PartialEq, Eq)]
pub struct Document {
    /// The path of the document, relative to the book's source directory.
    pub path: String,
    /// The text of the document.
    pub text: String,
}

/// A target or a reference that the scanner found, with the bytes it
/// occupies in the scanned text.
#[derive(Debug, Clone, PartialEq, Eq)]
pub struct Found {
    /// The target of a link, or the name of a reference.
    pub text: String,
    /// The first byte of the link.
    pub start: usize,
    /// The byte behind the link.
    pub end: usize,
}

impl View for Found {
    type V = (Seq<char>, usize, usize);

    open spec fn view(&self) -> (Seq<char>, usize, usize) {
        (self.text@, self.start, self.end)
    }
}

/// What the scanner found, one by one.
pub open spec fn found_view(found: Seq<Found>) -> Seq<(Seq<char>, usize, usize)> {
    found.map_values(|f: Found| f@)
}

/// What `linkcheck::scanners::markdown_with_broken_link_callback` makes of a
/// text, with a callback that resolves nothing: first the targets of the
/// links and images that it yields, in its order and each with its byte
/// range, then the references that it hands to the callback, each with the
/// byte range of the link that holds it.
pub uninterp spec fn markdown_scan(src: Seq<char>) -> (
    Seq<(Seq<char>, usize, usize)>,
    Seq<(Seq<char>, usize, usize)>,
);

/// Whether every range lies within a text of `len` bytes and ends no
/// earlier than it starts.
pub open spec fn ranges_within(found: Seq<(Seq<char>, usize, usize)>, len: int) -> bool {
    forall|i: int| 0 <= i < found.len() ==> (#[trigger] found[i]).1 <= found[i].2 <= len
}

/// Calls `linkcheck::scanners::markdown_with_broken_link_callback` and
/// collects what it yields and what it hands to the callback, as
/// `markdown_scan` names it. The callback resolves no reference. The
/// scanner cuts positions down to 32 bits and stops on a range that ends
/// before it starts, so it is given no text that is longer. Every range
/// that comes back is a range of bytes of the text.
#[verifier::external_body]
fn scan_markdown(src: &str) -> (found: (Vec<Found>, Vec<Found>))
    requires
        encode_utf8(src@).len() <= u32::MAX,
    ensures
        found_view(found.0@) == markdown_scan(src@).0,
        found_view(found.1@) == markdown_scan(src@).1,
        ranges_within(found_view(found.0@), encode_utf8(src@).len() as int),
        ranges_within(found_view(found.1@), encode_utf8(src@).len() as int),
{
    let broken = std::cell::RefCell::new(Vec::new());
    let links = linkcheck::scanners::markdown_with_broken_link_callback(
        src,
        Some(&mut |link| {
            let (text, span) = (link.reference.to_string(), link.span);
            broken.borrow_mut().push(Found { text, start: span.start, end: span.end });
            None
        }),
    )
    .map(|(text, span)| Found { text, start: span.start().to_usize(), end: span.end().to_usize() })
    .collect();
    (links, broken.into_inner())
}

/// Why the links of a document could not be found.
#[derive(Debug, Clone, Copy, PartialEq, Eq, Structural)]
pub enum ScanError {
    /// The mathematical notation could not be cut out of the document.
    Filter(FilterError),
    /// The text is longer than positions of 32 bits reach, or a link lies
    /// where they do not reach.
    PositionOverflow,
}

/// The place in the source text of what was found at `start..end` of the
/// scanned text.
pub open spec fn place(m: Seq<Breakpoint>, start: usize, end: usize) -> Option<Span> {
    if start > u32::MAX || end > u32::MAX || resolve_spec(m, start as int) > u32::MAX
        || resolve_spec(m, end as int) > u32::MAX {
        None
    } else {
        Some(
            Span {
                start: resolve_spec(m, start as int) as u32,
                end: resolve_spec(m, end as int) as u32,
            },
        )
    }
}

/// The links of the document `file` that were found, each at its place in
/// the source text, unless one has no place.
pub open spec fn located_links(
    found: Seq<(Seq<char>, usize, usize)>,
    m: Seq<Breakpoint>,
    file: usize,
) -> Option<Seq<LinkView>>
    decreases found.len(),
{
    if found.len() == 0 {
        Some(Seq::empty())
    } else {
        match (
            located_links(found.drop_last(), m, file),
            place(m, found.last().1, found.last().2),
        ) {
            (Some(front), Some(span)) => Some(
                front.push(LinkView { href: found.last().0, span, file }),
            ),
            _ => None,
        }
    }
}

/// The incomplete links of the document `file` that were found, each at its
/// place in the source text, unless one has no place.
pub open spec fn located_references(
    found: Seq<(Seq<char>, usize, usize)>,
    m: Seq<Breakpoint>,
    file: usize,
) -> Option<Seq<IncompleteLinkView>>
    decreases found.len(),
{
    if found.len() == 0 {
        Some(Seq::empty())
    } else {
        match (
            located_references(found.drop_last(), m, file),
            place(m, found.last().1, found.last().2),
        ) {
            (Some(front), Some(span)) => Some(
                front.push(IncompleteLinkView { reference: found.last().0, file, span }),
            ),
            _ => None,
        }
    }
}

/// The links and the incomplete links of the document `file` that the
/// targets `links` and the references `references` stand for, each at its
/// place in the text that was written.
pub open spec fn located_found(
    links: Seq<(Seq<char>, usize, usize)>,
    references: Seq<(Seq<char>, usize, usize)>,
    m: Seq<Breakpoint>,
    file: usize,
) -> Result<(Seq<LinkView>, Seq<IncompleteLinkView>), ScanError> {
    match (located_links(links, m, file), located_references(references, m, file)) {
        (Some(links), Some(incomplete)) => Ok((links, incomplete)),
        _ => Err(ScanError::PositionOverflow),
    }
}

/// The links and incomplete links of a text that was scanned as `scanned`,
/// with the breakpoints `m` leading back to the text that was written.
pub open spec fn located(scanned: Seq<char>, m: Seq<Breakpoint>, file: usize) -> Result<
    (Seq<LinkView>, Seq<IncompleteLinkView>),
    ScanError,
> {
    if encode_utf8(scanned).len() > u32::MAX {
        Err(ScanError::PositionOverflow)
    } else {
        located_found(markdown_scan(scanned).0, markdown_scan(scanned).1, m, file)
    }
}

/// The links and the incomplete links of the document `file` with the text
/// `text`. With `latex_support` the mathematical notation is cut out before
/// the text is scanned, and every place is mapped back.
pub open spec fn scan_spec(text: Seq<char>, latex_support: bool, file: usize) -> Result<
    (Seq<LinkView>, Seq<IncompleteLinkView>),
    ScanError,
> {
    if latex_support {
        match filter_spec(text) {
            Err(e) => Err(ScanError::Filter(e)),
            Ok((scanned, m)) => located(scanned, m, file),
        }
    } else {
        located(text, Seq::empty(), file)
    }
}

/// The links as what they hold.
pub open spec fn links_view(links: Seq<Link>) -> Seq<LinkView> {
    links.map_values(|l: Link| l@)
}

/// The incomplete links as what they hold.
pub open spec fn incomplete_view(links: Seq<IncompleteLink>) -> Seq<IncompleteLinkView> {
    links.map_values(|l: IncompleteLink| l@)
}

/// The texts of the documents.
pub open spec fn texts(files: Seq<Document>) -> Seq<Seq<char>> {
    files.map_values(|d: Document| d.text@)
}

/// The links and the incomplete links of the documents `targets`, in that
/// order, or the first error with the document that has it.
pub open spec fn extract_spec(latex_support: bool, targets: Seq<usize>, texts: Seq<Seq<char>>)
    -> Result<(Seq<LinkView>, Seq<IncompleteLinkView>), (usize, ScanError)>
    decreases targets.len(),
{
    if targets.len() == 0 {
        Ok((Seq::empty(), Seq::empty()))
    } else {
        match extract_spec(latex_support, targets.drop_last(), texts) {
            Err(e) => Err(e),
            Ok((links, incomplete)) => match scan_spec(
                texts[targets.last() as int],
                latex_support,
                targets.last(),
            ) {
                Err(e) => Err((targets.last(), e)),
                Ok((more_links, more_incomplete)) => Ok(
                    (links + more_links, incomplete + more_incomplete),
                ),
            },
        }
    }
}

/// The place in the source text of what was found at `start..end`.
fn locate(map: &ByteIndexMap, start: usize, end: usize) -> (span: Option<Span>)
    ensures
        span == place(map@, start, end),
{
    if start > u32::MAX as usize || end > u32::MAX as usize {
        return None;
    }
    match (map.checked_resolve(start as u32), map.checked_resolve(end as u32)) {
        (Some(s), Some(e)) => Some(Span { start: s, end: e }),
        _ => None,
    }
}

/// Turns what the scanner found in the document `file` into links and
/// incomplete links, each at the place that `map` gives it in the text that
/// was written.
#[verifier::loop_isolation(false)]
pub fn locate_found(
    found_links: &Vec<Found>,
    found_references: &Vec<Found>,
    map: &ByteIndexMap,
    file: usize,
) -> (r: Result<(Vec<Link>, Vec<IncompleteLink>), ScanError>)
    ensures
        match located_found(found_view(found_links@), found_view(found_references@), map@, file) {
            Ok((links, incomplete)) => r matches Ok(p) && links_view(p.0@) == links
                && incomplete_view(p.1@) == incomplete,
            Err(e) => r matches Err(x) && x == e,
        },
{
    let ghost fl = found_view(found_links@);
    let ghost fr = found_view(found_references@);
    let ghost m = map@;
    let mut links: Vec<Link> = Vec::new();
    let mut i: usize = 0;
    while i < found_links.len()
        invariant
            i <= found_links.len(),
            located_links(fl.take(i as int), m, file) == Some(links_view(links@)),
        decreases found_links.len() - i,
    {
        proof {
            assert(fl.take(i + 1).drop_last() =~= fl.take(i as int));
        }
        let found = &found_links[i];
        match locate(map, found.start, found.end) {
            None => {
                proof {
                    lemma_located_links_none(fl, m, file, i + 1);
                }
                return Err(ScanError::PositionOverflow);
            },
            Some(span) => {
                links.push(Link { href: found.text.clone(), span, file });
            },
        }
        i += 1;
    }
    assert(fl.take(fl.len() as int) =~= fl);
    let mut incomplete: Vec<IncompleteLink> = Vec::new();
    let mut k: usize = 0;
    while k < found_references.len()
        invariant
            k <= found_references.len(),
            located_references(fr.take(k as int), m, file) == Some(incomplete_view(incomplete@)),
        decreases found_references.len() - k,
    {
        proof {
            assert(fr.take(k + 1).drop_last() =~= fr.take(k as int));
        }
        let found = &found_references[k];
        match locate(map, found.start, found.end) {
            None => {
                proof {
                    lemma_located_references_none(fr, m, file, k + 1);
                }
                return Err(ScanError::PositionOverflow);
            },
            Some(span) => {
                incomplete.push(IncompleteLink { reference: found.text.clone(), file, span });
            },
        }
        k += 1;
    }
    assert(fr.take(fr.len() as int) =~= fr);
    Ok((links, incomplete))
}

/// Scans one document for its links and its incomplete links.
pub fn scan_document(text: &str, latex_support: bool, file: usize) -> (r: Result<
    (Vec<Link>, Vec<IncompleteLink>),
    ScanError,
>)
    ensures
        match scan_spec(text@, latex_support, file) {
            Ok((links, incomplete)) => r matches Ok(p) && links_view(p.0@) == links
                && incomplete_view(p.1@) == incomplete,
            Err(e) => r matches Err(x) && x == e,
        },
{
    let (scanned, map) = if latex_support {
        match filter_out_latex(text) {
            Ok(p) => p,
            Err(e) => {
                return Err(ScanError::Filter(e));
            },
        }
    } else {
        (text.to_owned(), ByteIndexMap::new())
    };
    if scanned.as_str().as_bytes().len() > u32::MAX as usize {
        return Err(ScanError::PositionOverflow);
    }
    let (found_links, found_references) = scan_markdown(scanned.as_str());
    locate_found(&found_links, &found_references, &map, file)
}

/// A link without a place among the first `n` leaves all without.
pub proof fn lemma_located_links_none(
    found: Seq<(Seq<char>, usize, usize)>,
    m: Seq<Breakpoint>,
    file: usize,
    n: int,
)
    requires
        0 <= n <= found.len(),
        located_links(found.take(n), m, file) is None,
    ensures
        located_links(found, m, file) is None,
    decreases found.len() - n,
{
    if n == found.len() {
        assert(found.take(n) =~= found);
    } else {
        assert(found.take(n + 1).drop_last() =~= found.take(n));
        lemma_located_links_none(found, m, file, n + 1);
    }
}

/// A reference without a place among the first `n` leaves all without.
pub proof fn lemma_located_references_none(
    found: Seq<(Seq<char>, usize, usize)>,
    m: Seq<Breakpoint>,
    file: usize,
    n: int,
)
    requires
        0 <= n <= found.len(),
        located_references(found.take(n), m, file) is None,
    ensures
        located_references(found, m, file) is None,
    decreases found.len() - n,
{
    if n == found.len() {
        assert(found.take(n) =~= found);
    } else {
        assert(found.take(n + 1).drop_last() =~= found.take(n));
        lemma_located_references_none(found, m, file, n + 1);
    }
}

/// Search the documents `target_files` of `files` and collate all the links
/// that are found, in the order of the documents and, within a document, in
/// the order of the text. The error names the document that has it.
pub fn extract(cfg: &Config, target_files: &Vec<usize>, files: &Vec<Document>) -> (r: Result<
    (Vec<Link>, Vec<IncompleteLink>),
    (usize, ScanError),
>)
    requires
        forall|i: int| 0 <= i < target_files@.len() ==> target_files@[i] < files@.len(),
    ensures
        match extract_spec(cfg.latex_support, target_files@, texts(files@)) {
            Ok((links, incomplete)) => r matches Ok(p) && links_view(p.0@) == links
                && incomplete_view(p.1@) == incomplete,
            Err(e) => r matches Err(x) && x == e,
        },
{
    let mut links: Vec<Link> = Vec::new();
    let mut incomplete: Vec<IncompleteLink> = Vec::new();
    let ghost t = texts(files@);
    let mut i: usize = 0;
    assert(links_view(links@) =~= Seq::empty());
    assert(incomplete_view(incomplete@) =~= Seq::empty());
    while i < target_files.len()
        invariant
            i <= target_files.len(),
            t == texts(files@),
            forall|k: int| 0 <= k < target_files@.len() ==> target_files@[k] < files@.len(),
            extract_spec(cfg.latex_support, target_files@.take(i as int), t) == Ok::<
                (Seq<LinkView>, Seq<IncompleteLinkView>),
                (usize, ScanError),
            >((links_view(links@), incomplete_view(incomplete@))),
        decreases target_files.len() - i,
    {
        let file = target_files[i];
        proof {
            assert(target_files@.take(i + 1).drop_last() =~= target_files@.take(i as int));
        }
        match scan_document(files[file].text.as_str(), cfg.latex_support, file) {
            Err(e) => {
                proof {
                    lemma_extract_error_stays(cfg.latex_support, target_files@, t, i + 1);
                }
                return Err((file, e));
            },
            Ok((mut more_links, mut more_incomplete)) => {
                let ghost l0 = links_view(links@);
                let ghost i0 = incomplete_view(incomplete@);
                let ghost l1 = links_view(more_links@);
                let ghost i1 = incomplete_view(more_incomplete@);
                links.append(&mut more_links);
                incomplete.append(&mut more_incomplete);
                assert(links_view(links@) =~= l0 + l1);
                assert(incomplete_view(incomplete@) =~= i0 + i1);
            },
        }
        i += 1;
    }
    assert(target_files@.take(target_files@.len() as int) =~= target_files@);
    Ok((links, incomplete))
}

/// An error among the first `n` documents is the error of them all.
pub proof fn lemma_extract_error_stays(
    latex_support: bool,
    targets: Seq<usize>,
    texts: Seq<Seq<char>>,
    n: int,
)
    requires
        0 <= n <= targets.len(),
        extract_spec(latex_support, targets.take(n), texts) is Err,
    ensures
        extract_spec(latex_support, targets, texts) == extract_spec(
            latex_support,
            targets.take(n),
            texts,
        ),
    decreases targets.len() - n,
{
    if n == targets.len() {
        assert(targets.take(n) =~= targets);
    } else {
        assert(targets.take(n + 1).drop_last() =~= targets.take(n));
        lemma_extract_error_stays(latex_support, targets, texts, n + 1);
    }
}

/// The text that is scanned for links.
pub open spec fn scanned_text(text: Seq<char>, latex_support: bool) -> Option<Seq<char>> {
    if latex_support {
        match filter_spec(text) {
            Ok((scanned, m)) => Some(scanned),
            Err(_) => None,
        }
    } else {
        Some(text)
    }
}

/// A document in which the scanner finds no link and no reference has no
/// link and no incomplete link, unless its text is too long to be scanned.
pub proof fn lemma_nothing_found_nothing_reported(text: Seq<char>, latex_support: bool, file: usize)
    requires
        scanned_text(text, latex_support) matches Some(scanned) && encode_utf8(scanned).len()
            <= u32::MAX && markdown_scan(scanned).0.len() == 0 && markdown_scan(scanned).1.len()
            == 0,
    ensures
        scan_spec(text, latex_support, file) == Ok::<
            (Seq<LinkView>, Seq<IncompleteLinkView>),
            ScanError,
        >((Seq::empty(), Seq::empty())),
{
}

/// Without a byte beyond the reach of 32 bits, a place in a text in which
/// nothing was rewritten is the place itself.
pub proof fn lemma_place_in_plain_text(start: usize, end: usize)
    ensures
        place(Seq::empty(), start, end) == if start > u32::MAX || end > u32::MAX {
            None
        } else {
            Some(Span { start: start as u32, end: end as u32 })
        },
{
}

/// In a document that holds no mathematical notation, cutting it out makes
/// no difference: the same links are found at the same places.
pub proof fn lemma_latex_support_keeps_plain_documents(text: Seq<char>, file: usize)
    requires
        free_of_latex(text),
    ensures
        scan_spec(text, true, file) == scan_spec(text, false, file),
{
    lemma_filter_leaves_plain_text(text);
}

/// Whether the scanner finds no link and no reference in the document.
pub open spec fn nothing_found(text: Seq<char>, latex_support: bool) -> bool {
    scanned_text(text, latex_support) matches Some(scanned) && encode_utf8(scanned).len()
        <= u32::MAX && markdown_scan(scanned).0.len() == 0 && markdown_scan(scanned).1.len() == 0
}

/// However many documents are searched: where the scanner finds no link
/// and no reference in any of them, no link and no incomplete link is
/// reported.
pub proof fn lemma_no_links_in_any_document(
    latex_support: bool,
    targets: Seq<usize>,
    texts: Seq<Seq<char>>,
)
    requires
        forall|i: int|
            0 <= i < targets.len() ==> nothing_found(
                texts[(#[trigger] targets[i]) as int],
                latex_support,
            ),
    ensures
        extract_spec(latex_support, targets, texts) == Ok::<
            (Seq<LinkView>, Seq<IncompleteLinkView>),
            (usize, ScanError),
        >((Seq::empty(), Seq::empty())),
    decreases targets.len(),
{
    if targets.len() > 0 {
        let front = targets.drop_last();
        lemma_no_links_in_any_document(latex_support, front, texts);
        let last = targets[targets.len() - 1];
        lemma_nothing_found_nothing_reported(texts[last as int], latex_support, last);
    }
}

/// Where none of the documents holds mathematical notation, cutting it out
/// makes no difference to what is found in them.
pub proof fn lemma_latex_support_keeps_plain_books(targets: Seq<usize>, texts: Seq<Seq<char>>)
    requires
        forall|i: int| 0 <= i < targets.len() ==> free_of_latex(texts[(#[trigger] targets[i]) as int]),
    ensures
        extract_spec(true, targets, texts) == extract_spec(false, targets, texts),
    decreases targets.len(),
{
    if targets.len() > 0 {
        let front = targets.drop_last();
        lemma_latex_support_keeps_plain_books(front, texts);
        let last = targets[targets.len() - 1];
        lemma_latex_support_keeps_plain_documents(texts[last as int], last);
    }
}

/// What is found in a text that is faithful to its source, at bytes that
/// touch no token, is put at the place where the source holds the same
/// bytes.
pub proof fn lemma_place_holds_what_was_found(
    m: Seq<Breakpoint>,
    scanned: Seq<u8>,
    src: Seq<u8>,
    start: usize,
    end: usize,
)
    requires
        without_empty(m),
        faithful(m, scanned, src),
        start < end <= scanned.len(),
        avoids_tokens(m, start as int, end as int),
        place(m, start, end) is Some,
    ensures
        place(m, start, end)->Some_0.end - place(m, start, end)->Some_0.start == end - start,
        place(m, start, end)->Some_0.end <= src.len(),
        src.subrange(
            place(m, start, end)->Some_0.start as int,
            place(m, start, end)->Some_0.end as int,
        ) == scanned.subrange(start as int, end as int),
{
    lemma_found_text_is_source_text(m, scanned, src, start as int, end as int);
}

/// What is found in the scanned text, from a byte outside the tokens to
/// one outside the tokens, is put at a place that ends no earlier than it
/// starts, and no later than the place of the end of the scanned text.
pub proof fn lemma_place_lies_in_the_source(
    m: Seq<Breakpoint>,
    start: usize,
    end: usize,
    len: int,
)
    requires
        well_formed(m),
        start <= end <= len,
        outside_tokens(m, start as int),
        outside_tokens(m, end as int),
        place(m, start, end) is Some,
    ensures
        place(m, start, end)->Some_0.start <= place(m, start, end)->Some_0.end <= resolve_spec(
            m,
            len,
        ),
{
    lemma_range_is_mapped_in_order(m, start as int, end as int, len);
}

} // verus!
