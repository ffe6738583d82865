//! Checking the links of a book by directory, and putting together what the
//! checks came to.

use crate::cache::{Cache, CacheEntry};
use crate::config::{Config, WarningPolicy};
use crate::context::Context;
use crate::error_handling::{
    absolute_diagnostic, diagnostics_view, incomplete_diagnostic, invalid_diagnostic, severity_of,
    Diagnostic, DiagnosticView, ErrorHandling, Severity,
};
use crate::links::{incomplete_view, links_view, Document, IncompleteLink, Link, LinkView, Span};
use crate::paths::{
    chars_are, components, components_of, copy_range, extension, extension_of, file_name,
    file_name_of, is_root, name_view, normalize_from, normalize_onto, parent_components, parent_of,
    path_starts_with, path_text, path_to_string, path_view, same_name, same_path, starts_with,
    strip_root, views,
};
use crate::validation::{
    answer_outcome, check_link, finish_request, ignored_of, invalid_of, invalid_view, requests_of,
    requests_view, steps_for, strings_view, succeeded, table_view, unknown_of, valid_of,
    CustomValidation, InvalidLink, NotInSummary, Options, Outcome, Reason, ReasonView, Step,
    StepView, WebRequest, WebResponse,
};
use crate::text::{chars_of, push_str, string_of};
use vstd::prelude::*;

verus! {

/// The rule that a markdown file below the book's source directory has to be
/// one of the documents of the book.
#[derive(Debug, Clone, PartialEq, Eq)]
pub struct IncludedInBook {
    /// The book's source directory.
    pub src_dir: String,
    /// The paths of the documents of the book, relative to `src_dir`.
    pub file_names: Vec<String>,
}

/// Whether the document `summary` of the book is the file `resolved`: both
/// lie in the same directory and have the same name, or the document is the
/// `index.md` that stands for the file `README.md`.
pub open spec fn is_document(summary: Seq<Seq<char>>, resolved: Seq<Seq<char>>) -> bool {
    parent_of(summary) == parent_of(resolved) && (file_name_of(summary) == file_name_of(resolved)
        || (file_name_of(summary) == Some("index.md"@) && file_name_of(resolved) == Some(
        "README.md"@,
    )))
}

/// Whether one of the documents `file_names` is the file `resolved`.
pub open spec fn was_included(file_names: Seq<Seq<char>>, resolved: Seq<Seq<char>>) -> bool {
    exists|i: int|
        0 <= i < file_names.len() && is_document(components(#[trigger] file_names[i]), resolved)
}

/// Whether the file is a markdown file, going by its extension.
pub open spec fn is_markdown(resolved: Seq<Seq<char>>) -> bool {
    file_name_of(resolved) is Some && extension_of(resolved.last()) == Some("md"@)
}

/// Why the file `resolved` is refused, if it is: it lies below `src_dir`, is
/// a markdown file, and is none of the documents `file_names`.
pub open spec fn included_verdict(
    src_dir: Seq<char>,
    file_names: Seq<Seq<char>>,
    resolved: Seq<char>,
) -> Option<ReasonView> {
    let root = components(src_dir);
    let path = components(resolved);
    if !starts_with(path, root) {
        None
    } else {
        let inside = path.skip(root.len() as int);
        if was_included(file_names, inside) || !is_markdown(inside) {
            None
        } else {
            Some(ReasonView::NotRegisteredInTableOfContents(path_text(inside)))
        }
    }
}

impl CustomValidation for IncludedInBook {
    open spec fn verdict(&self, resolved: Seq<char>, fragment: Option<Seq<char>>) -> Option<
        ReasonView,
    > {
        included_verdict(self.src_dir@, strings_view(self.file_names@), resolved)
    }

    fn validate(&self, resolved: &str, fragment: Option<&str>) -> (r: Result<(), Reason>) {
        let root = components_of(self.src_dir.as_str());
        let path = components_of(resolved);
        if !path_starts_with(&path, &root) {
            return Ok(());
        }
        let inside = copy_range(&path, root.len(), path.len());
        let parent = parent_components(&inside);
        let name = file_name(&inside);
        let ghost names = strings_view(self.file_names@);
        let mut included = false;
        let mut i: usize = 0;
        while i < self.file_names.len() && !included
            invariant
                i <= self.file_names.len(),
                names == strings_view(self.file_names@),
                path_view(parent) == parent_of(views(inside@)),
                name_view(name) == file_name_of(views(inside@)),
                included ==> was_included(names, views(inside@)),
                !included ==> forall|k: int|
                    0 <= k < i ==> !is_document(components(#[trigger] names[k]), views(inside@)),
            decreases self.file_names.len() - i, (if included { 0int } else { 1int }),
        {
            let summary = components_of(self.file_names[i].as_str());
            let summary_name = file_name(&summary);
            if same_path(&parent_components(&summary), &parent) && (same_name(&summary_name, &name)
                || (is_name(&summary_name, "index.md") && is_name(&name, "README.md"))) {
                assert(is_document(components(names[i as int]), views(inside@)));
                included = true;
            } else {
                i += 1;
            }
        }
        let markdown = match &name {
            Some(n) => {
                match extension(n) {
                    Some(ext) => chars_are(&ext, "md"),
                    None => false,
                }
            },
            None => false,
        };
        if included || !markdown {
            Ok(())
        } else {
            Err(Reason::NotRegisteredInTableOfContents(NotInSummary { path: path_to_string(&inside) }))
        }
    }
}

/// Whether the name is there and is the text.
fn is_name(name: &Option<Vec<char>>, text: &str) -> (r: bool)
    ensures
        r == (name_view(*name) == Some(text@)),
{
    match name {
        Some(n) => chars_are(n, text),
        None => false,
    }
}

/// The rule that every markdown file below `src_dir` that is linked to is
/// one of the documents `file_names` of the book.
pub fn ensure_included_in_book(src_dir: &str, file_names: Vec<String>) -> (rule: IncludedInBook)
    ensures
        rule.src_dir@ == src_dir@,
        rule.file_names@ == file_names@,
{
    IncludedInBook { src_dir: src_dir.to_owned(), file_names }
}

impl NotInSummary {
    /// What the error says.
    pub open spec fn message_spec(path: Seq<char>) -> Seq<char> {
        "It looks like \""@ + path + "\" wasn't included in SUMMARY.md"@
    }

    /// What the error says.
    pub fn message(&self) -> (text: String)
        ensures
            text@ == Self::message_spec(self.path@),
    {
        let mut out: Vec<char> = Vec::new();
        push_str(&mut out, "It looks like \"");
        push_str(&mut out, self.path.as_str());
        push_str(&mut out, "\" wasn't included in SUMMARY.md");
        string_of(&out)
    }
}

/// The directory of the document `document` of a book in `src_dir`. The
/// path of the document leads from `src_dir`, whether it starts with `/` or
/// not.
pub open spec fn directory_of(src_dir: Seq<char>, document: Seq<char>) -> Seq<char> {
    let full = normalize_from(components(src_dir), strip_root(components(document)));
    match parent_of(full) {
        Some(dir) => path_text(dir),
        None => path_text(full),
    }
}

/// The directory of the document `document` of a book in `src_dir`.
pub fn document_directory(src_dir: &str, document: &str) -> (dir: String)
    ensures
        dir@ == directory_of(src_dir@, document@),
{
    let doc = components_of(document);
    let skip: usize = if doc.len() > 0 && is_root(&doc[0]) {
        1
    } else {
        0
    };
    let inside = copy_range(&doc, skip, doc.len());
    assert(views(inside@) =~= strip_root(components(document@)));
    let full = normalize_onto(components_of(src_dir), &inside);
    match parent_components(&full) {
        Some(dir) => path_to_string(&dir),
        None => path_to_string(&full),
    }
}

/// A copy of the link.
pub fn clone_link(link: &Link) -> (copy: Link)
    ensures
        copy@ == link@,
{
    Link { href: link.href.clone(), span: link.span, file: link.file }
}

/// The texts without repetition, each at the place of its first occurrence.
pub open spec fn distinct(texts: Seq<Seq<char>>) -> Seq<Seq<char>>
    decreases texts.len(),
{
    if texts.len() == 0 {
        Seq::empty()
    } else {
        let front = distinct(texts.drop_last());
        if front.contains(texts.last()) {
            front
        } else {
            front.push(texts.last())
        }
    }
}

/// The links whose directory is `dir`, in their order. `dirs` holds the
/// directory of each link.
pub open spec fn links_in(links: Seq<LinkView>, dirs: Seq<Seq<char>>, dir: Seq<char>) -> Seq<LinkView>
    decreases links.len(),
{
    if links.len() == 0 || dirs.len() != links.len() {
        Seq::empty()
    } else {
        let front = links_in(links.drop_last(), dirs.drop_last(), dir);
        if dirs.last() == dir {
            front.push(links.last())
        } else {
            front
        }
    }
}

/// The directory of each link's document.
pub open spec fn link_directories(links: Seq<LinkView>, src_dir: Seq<char>, files: Seq<Document>) -> Seq<
    Seq<char>,
> {
    links.map_values(|l: LinkView| directory_of(src_dir, files[l.file as int].path@))
}

/// The groups as pairs of a directory and the links in it.
pub open spec fn groups_view(groups: Seq<(String, Vec<Link>)>) -> Seq<(Seq<char>, Seq<LinkView>)> {
    groups.map_values(|g: (String, Vec<Link>)| (g.0@, links_view(g.1@)))
}

/// Groups the links by the directory of their document. The directories
/// come in the order in which they first occur, and the links of a
/// directory in the order they had.
pub fn collate_links(links: &Vec<Link>, src_dir: &str, files: &Vec<Document>) -> (groups: Vec<
    (String, Vec<Link>),
>)
    requires
        forall|i: int| 0 <= i < links@.len() ==> (#[trigger] links@[i]).file < files@.len(),
    ensures
        groups@.len() == distinct(
            link_directories(links_view(links@), src_dir@, files@),
        ).len(),
        forall|k: int|
            0 <= k < groups@.len() ==> (#[trigger] groups_view(groups@)[k]).0 == distinct(
                link_directories(links_view(links@), src_dir@, files@),
            )[k] && groups_view(groups@)[k].1 == links_in(
                links_view(links@),
                link_directories(links_view(links@), src_dir@, files@),
                groups_view(groups@)[k].0,
            ),
{
    let ghost lv = links_view(links@);
    let ghost all_dirs = link_directories(lv, src_dir@, files@);
    // The directory of each link, and the directories without repetition.
    let mut dirs: Vec<String> = Vec::new();
    let mut found: Vec<String> = Vec::new();
    let mut i: usize = 0;
    while i < links.len()
        invariant
            i <= links.len(),
            lv == links_view(links@),
            all_dirs == link_directories(lv, src_dir@, files@),
            forall|k: int| 0 <= k < links@.len() ==> (#[trigger] links@[k]).file < files@.len(),
            strings_view(dirs@) == all_dirs.take(i as int),
            strings_view(found@) == distinct(all_dirs.take(i as int)),
        decreases links.len() - i,
    {
        let dir = document_directory(src_dir, files[links[i].file].path.as_str());
        proof {
            assert(all_dirs.take(i + 1).drop_last() =~= all_dirs.take(i as int));
        }
        if !contains_text(&found, &dir) {
            let ghost before = strings_view(found@);
            found.push(dir.clone());
        }
        let ghost before = strings_view(dirs@);
        dirs.push(dir);
        i += 1;
    }
    assert(all_dirs.take(all_dirs.len() as int) =~= all_dirs);
    let mut groups: Vec<(String, Vec<Link>)> = Vec::new();
    let mut g: usize = 0;
    while g < found.len()
        invariant
            g <= found.len(),
            lv == links_view(links@),
            dirs@.len() == links@.len(),
            strings_view(dirs@) == all_dirs,
            strings_view(found@) == distinct(all_dirs),
            groups@.len() == g,
            forall|k: int|
                0 <= k < g ==> (#[trigger] groups_view(groups@)[k]).0 == distinct(all_dirs)[k]
                    && groups_view(groups@)[k].1 == links_in(lv, all_dirs, groups_view(groups@)[k].0),
        decreases found.len() - g,
    {
        let dir = &found[g];
        let mut members: Vec<Link> = Vec::new();
        let mut k: usize = 0;
        while k < links.len()
            invariant
                k <= links.len(),
                lv == links_view(links@),
                dirs@.len() == links@.len(),
                strings_view(dirs@) == all_dirs,
                links_view(members@) == links_in(
                    lv.take(k as int),
                    all_dirs.take(k as int),
                    dir@,
                ),
            decreases links.len() - k,
        {
            proof {
                assert(lv.take(k + 1).drop_last() =~= lv.take(k as int));
                assert(all_dirs.take(k + 1).drop_last() =~= all_dirs.take(k as int));
            }
            if dirs[k] == *dir {
                let ghost before = links_view(members@);
                members.push(clone_link(&links[k]));
            }
            k += 1;
        }
        proof {
            assert(lv.take(lv.len() as int) =~= lv);
            assert(all_dirs.take(all_dirs.len() as int) =~= all_dirs);
        }
        let ghost before = groups_view(groups@);
        let ghost name = dir@;
        let ghost list = links_view(members@);
        groups.push((dir.clone(), members));
        proof {
            assert(groups_view(groups@) =~= before.push((name, list)));
        }
        g += 1;
    }
    groups
}

/// Whether one of the strings is `text`.
pub fn contains_text(list: &Vec<String>, text: &String) -> (found: bool)
    ensures
        found == strings_view(list@).contains(text@),
{
    let mut i: usize = 0;
    while i < list.len()
        invariant
            i <= list.len(),
            forall|k: int| 0 <= k < i ==> strings_view(list@)[k] != text@,
        decreases list.len() - i,
    {
        if list[i] == *text {
            assert(strings_view(list@)[i as int] == text@);
            return true;
        }
        i += 1;
    }
    false
}

/// Something that lies at a place in a document.
pub trait Located {
    /// The document, and the first byte and the byte behind the place.
    spec fn location(&self) -> (usize, u32, u32);

    /// The document.
    fn file(&self) -> (file: usize)
        ensures
            file == self.location().0,
    ;

    /// The place in the document.
    fn span(&self) -> (span: Span)
        ensures
            span.start == self.location().1,
            span.end == self.location().2,
    ;
}

impl Located for Link {
    open spec fn location(&self) -> (usize, u32, u32) {
        (self.file, self.span.start, self.span.end)
    }

    fn file(&self) -> (file: usize) {
        self.file
    }

    fn span(&self) -> (span: Span) {
        self.span
    }
}

impl Located for InvalidLink {
    open spec fn location(&self) -> (usize, u32, u32) {
        (self.link.file, self.link.span.start, self.link.span.end)
    }

    fn file(&self) -> (file: usize) {
        self.link.file
    }

    fn span(&self) -> (span: Span) {
        self.link.span
    }
}

/// Whether the place `a` comes before the place `b`: in an earlier
/// document, or in the same document and starting earlier, or starting at
/// the same byte and ending earlier.
pub open spec fn comes_before(a: (usize, u32, u32), b: (usize, u32, u32)) -> bool {
    a.0 < b.0 || (a.0 == b.0 && (a.1 < b.1 || (a.1 == b.1 && a.2 < b.2)))
}

/// The number of items at the front of `items` that come before `place`.
pub open spec fn run_before<T: Located>(items: Seq<T>, place: (usize, u32, u32)) -> int
    decreases items.len(),
{
    if items.len() == 0 || !comes_before(items[0].location(), place) {
        0
    } else {
        1 + run_before(items.skip(1), place)
    }
}

/// The ordered items with `item` put in front of the first one that does
/// not come before it.
pub open spec fn put_in_order<T: Located>(ordered: Seq<T>, item: T) -> Seq<T> {
    ordered.insert(run_before(ordered, item.location()), item)
}

/// The items ordered by document and place. Items at the same place keep
/// the order they had.
pub open spec fn in_order<T: Located>(items: Seq<T>) -> Seq<T>
    decreases items.len(),
{
    if items.len() == 0 {
        Seq::empty()
    } else {
        put_in_order(in_order(items.skip(1)), items[0])
    }
}

/// No item comes before one that stands in front of it.
pub open spec fn is_ordered<T: Located>(items: Seq<T>) -> bool {
    forall|i: int, j: int|
        0 <= i < j < items.len() ==> !comes_before(
            (#[trigger] items[j]).location(),
            (#[trigger] items[i]).location(),
        )
}

/// `run_before` counts a run: everything in it comes before `place`, and
/// what follows it does not.
pub proof fn lemma_run_before<T: Located>(items: Seq<T>, place: (usize, u32, u32))
    ensures
        0 <= run_before(items, place) <= items.len(),
        forall|i: int|
            0 <= i < run_before(items, place) ==> comes_before(
                (#[trigger] items[i]).location(),
                place,
            ),
        run_before(items, place) < items.len() ==> !comes_before(
            items[run_before(items, place)].location(),
            place,
        ),
    decreases items.len(),
{
    if items.len() > 0 && comes_before(items[0].location(), place) {
        let rest = items.skip(1);
        lemma_run_before(rest, place);
        let k = run_before(rest, place);
        assert forall|i: int| 0 <= i < 1 + k implies comes_before(
            (#[trigger] items[i]).location(),
            place,
        ) by {
            if i > 0 {
                assert(rest[i - 1] == items[i]);
            }
        }
    }
}

/// An index with a run in front of it that ends there is what `run_before`
/// counts.
pub proof fn lemma_run_before_is<T: Located>(items: Seq<T>, place: (usize, u32, u32), at: int)
    requires
        0 <= at <= items.len(),
        forall|i: int| 0 <= i < at ==> comes_before((#[trigger] items[i]).location(), place),
        at < items.len() ==> !comes_before(items[at].location(), place),
    ensures
        run_before(items, place) == at,
    decreases items.len(),
{
    if items.len() > 0 && comes_before(items[0].location(), place) {
        let rest = items.skip(1);
        lemma_run_before_is(rest, place, at - 1);
    }
}

/// The items in order are ordered, and they are the items that were given,
/// each as often as it was given.
pub proof fn lemma_in_order<T: Located>(items: Seq<T>)
    ensures
        is_ordered(in_order(items)),
        in_order(items).to_multiset() == items.to_multiset(),
        in_order(items).len() == items.len(),
    decreases items.len(),
{
    broadcast use vstd::seq_lib::group_to_multiset_ensures;

    if items.len() > 0 {
        let rest = items.skip(1);
        lemma_in_order(rest);
        lemma_run_before(in_order(rest), items[0].location());
        assert(items =~= rest.insert(0, items[0]));
    }
}

/// Items that are ordered already stay as they are.
pub proof fn lemma_in_order_keeps_ordered<T: Located>(items: Seq<T>)
    requires
        is_ordered(items),
    ensures
        in_order(items) == items,
    decreases items.len(),
{
    if items.len() > 0 {
        let rest = items.skip(1);
        lemma_in_order_keeps_ordered(rest);
    }
}

/// Ordering a second time changes nothing.
pub proof fn lemma_in_order_twice<T: Located>(items: Seq<T>)
    ensures
        in_order(in_order(items)) == in_order(items),
{
    lemma_in_order(items);
    lemma_in_order_keeps_ordered(in_order(items));
}

/// Whether the place `a` comes before the place `b`.
pub fn is_before<T: Located>(a: &T, b: &T) -> (r: bool)
    ensures
        r == comes_before(a.location(), b.location()),
{
    let (fa, sa) = (a.file(), a.span());
    let (fb, sb) = (b.file(), b.span());
    fa < fb || (fa == fb && (sa.start < sb.start || (sa.start == sb.start && sa.end < sb.end)))
}

/// Orders the items by document and place. Items at the same place keep the
/// order they had.
pub fn sorted<T: Located>(items: Vec<T>) -> (out: Vec<T>)
    ensures
        out@ == in_order(items@),
        is_ordered(out@),
        out@.to_multiset() == items@.to_multiset(),
{
    let ghost all = items@;
    let mut items = items;
    let mut out: Vec<T> = Vec::new();
    while items.len() > 0
        invariant
            items@.len() <= all.len(),
            items@ == all.take(items@.len() as int),
            out@ == in_order(all.skip(items@.len() as int)),
        decreases items.len(),
    {
        let ghost n = items@.len() as int;
        let item = match items.pop() {
            Some(item) => item,
            None => {
                assert(false);
                return out;
            },
        };
        proof {
            assert(all.skip(n - 1).skip(1) =~= all.skip(n));
        }
        let ghost ordered = out@;
        let mut at: usize = 0;
        while at < out.len() && is_before(&out[at], &item)
            invariant
                at <= out.len(),
                out@ == ordered,
                forall|i: int|
                    0 <= i < at ==> comes_before((#[trigger] ordered[i]).location(), item.location()),
            decreases out.len() - at,
        {
            at += 1;
        }
        proof {
            lemma_run_before_is(ordered, item.location(), at as int);
        }
        out.insert(at, item);
    }
    proof {
        lemma_in_order(all);
    }
    out
}

/// What the checks of a batch of links came to.
#[derive(Debug, Clone, PartialEq, Eq)]
pub struct Outcomes {
    /// Valid links.
    pub valid: Vec<Link>,
    /// Links which are broken.
    pub invalid: Vec<InvalidLink>,
    /// Links that were skipped.
    pub ignored: Vec<Link>,
    /// Links of a kind that is not known.
    pub unknown_category: Vec<Link>,
}

impl Outcomes {
    /// No outcome yet.
    pub fn empty() -> (outcomes: Outcomes)
        ensures
            outcomes.valid@.len() == 0,
            outcomes.invalid@.len() == 0,
            outcomes.ignored@.len() == 0,
            outcomes.unknown_category@.len() == 0,
    {
        Outcomes {
            valid: Vec::new(),
            invalid: Vec::new(),
            ignored: Vec::new(),
            unknown_category: Vec::new(),
        }
    }

    /// Adds the outcome of one link behind the others of its kind.
    pub fn push(&mut self, outcome: Outcome)
        ensures
            final(self).valid@ == (match outcome {
                Outcome::Valid(l) => old(self).valid@.push(l),
                _ => old(self).valid@,
            }),
            final(self).invalid@ == (match outcome {
                Outcome::Invalid(i) => old(self).invalid@.push(i),
                _ => old(self).invalid@,
            }),
            final(self).ignored@ == (match outcome {
                Outcome::Ignored(l) => old(self).ignored@.push(l),
                _ => old(self).ignored@,
            }),
            final(self).unknown_category@ == (match outcome {
                Outcome::UnknownCategory(l) => old(self).unknown_category@.push(l),
                _ => old(self).unknown_category@,
            }),
    {
        match outcome {
            Outcome::Valid(l) => self.valid.push(l),
            Outcome::Invalid(i) => self.invalid.push(i),
            Outcome::Ignored(l) => self.ignored.push(l),
            Outcome::UnknownCategory(l) => self.unknown_category.push(l),
        }
    }

    /// Adds the outcomes `other` behind these, kind by kind.
    pub fn merge(&mut self, other: Outcomes)
        ensures
            final(self).valid@ == old(self).valid@ + other.valid@,
            final(self).invalid@ == old(self).invalid@ + other.invalid@,
            final(self).ignored@ == old(self).ignored@ + other.ignored@,
            final(self).unknown_category@ == old(self).unknown_category@ + other.unknown_category@,
    {
        let mut other = other;
        self.valid.append(&mut other.valid);
        self.invalid.append(&mut other.invalid);
        self.ignored.append(&mut other.ignored);
        self.unknown_category.append(&mut other.unknown_category);
    }
}

/// The outcome of validating a set of links.
#[derive(Debug, Clone, PartialEq, Eq)]
pub struct ValidationOutcome {
    /// Valid links.
    pub valid_links: Vec<Link>,
    /// Links where validation failed.
    pub invalid_links: Vec<InvalidLink>,
    /// Links which have been ignored.
    pub ignored: Vec<Link>,
    /// Links which we don't know how to handle.
    pub unknown_category: Vec<Link>,
    /// Potentially incomplete links.
    pub incomplete_links: Vec<IncompleteLink>,
}

/// Puts what the checks came to in the order of the book: every kind of
/// outcome is ordered by document and, within a document, from the start of
/// its text to the end. The incomplete links stay as they were found.
pub fn merge_outcomes(outcomes: Outcomes, incomplete_links: Vec<IncompleteLink>) -> (merged:
    ValidationOutcome)
    ensures
        merged.valid_links@ == in_order(outcomes.valid@),
        merged.invalid_links@ == in_order(outcomes.invalid@),
        merged.ignored@ == in_order(outcomes.ignored@),
        merged.unknown_category@ == in_order(outcomes.unknown_category@),
        merged.incomplete_links@ == incomplete_links@,
{
    ValidationOutcome {
        invalid_links: sorted(outcomes.invalid),
        ignored: sorted(outcomes.ignored),
        valid_links: sorted(outcomes.valid),
        unknown_category: sorted(outcomes.unknown_category),
        incomplete_links,
    }
}

/// The reports for the invalid links, one for each, in their order.
pub open spec fn invalid_reports(invalid: Seq<InvalidLink>) -> Seq<DiagnosticView> {
    invalid.map_values(|l: InvalidLink| invalid_diagnostic(l))
}

/// The reports for the incomplete links, one for each, in their order,
/// unless the policy ignores them.
pub open spec fn incomplete_reports(policy: WarningPolicy, incomplete: Seq<IncompleteLink>) -> Seq<
    DiagnosticView,
> {
    match severity_of(policy) {
        None => Seq::empty(),
        Some(severity) => incomplete.map_values(
            |l: IncompleteLink| incomplete_diagnostic(severity, l),
        ),
    }
}

/// Whether the link starts at the root of the book.
pub open spec fn is_absolute(href: Seq<char>) -> bool {
    href.len() > 0 && href[0] == '/'
}

/// The reports for those of the valid links that start at the root of the
/// book, in their order. Only the first of them says why such links are
/// reported.
pub open spec fn absolute_reports(severity: Severity, valid: Seq<Link>, files: Seq<Document>) -> Seq<
    DiagnosticView,
>
    decreases valid.len(),
{
    if valid.len() == 0 {
        Seq::empty()
    } else {
        let front = absolute_reports(severity, valid.drop_last(), files);
        if is_absolute(valid.last().href@) {
            front.push(
                absolute_diagnostic(
                    severity,
                    valid.last(),
                    front.len() == 0,
                    files[valid.last().file as int].path@,
                ),
            )
        } else {
            front
        }
    }
}

/// The reports for the absolute links among the valid ones, unless the
/// policy ignores them.
pub open spec fn absolute_link_reports(policy: WarningPolicy, valid: Seq<Link>, files: Seq<Document>)
    -> Seq<DiagnosticView> {
    match severity_of(policy) {
        None => Seq::empty(),
        Some(severity) => absolute_reports(severity, valid, files),
    }
}

/// The reports for an outcome: first the invalid links, then the incomplete
/// links, then the absolute links among the valid ones.
pub open spec fn diagnostics_spec(
    outcome: ValidationOutcome,
    files: Seq<Document>,
    policy: WarningPolicy,
) -> Seq<DiagnosticView> {
    invalid_reports(outcome.invalid_links@) + incomplete_reports(policy, outcome.incomplete_links@)
        + absolute_link_reports(policy, outcome.valid_links@, files)
}

/// Whether the link starts at the root of the book.
pub fn starts_at_root(href: &str) -> (r: bool)
    ensures
        r == is_absolute(href@),
{
    let chars = chars_of(href);
    chars.len() > 0 && chars[0] == '/'
}

impl ValidationOutcome {
    /// Generate a list of [`Diagnostic`] messages from this
    /// [`ValidationOutcome`]. `files` holds the documents of the book, each
    /// at the place that the links name it by.
    pub fn generate_diagnostics(&self, files: &Vec<Document>, warning_policy: WarningPolicy) -> (diags:
        Vec<Diagnostic>)
        requires
            forall|i: int|
                0 <= i < self.valid_links@.len() ==> (#[trigger] self.valid_links@[i]).file
                    < files@.len(),
        ensures
            diagnostics_view(diags@) == diagnostics_spec(*self, files@, warning_policy),
    {
        let mut diags: Vec<Diagnostic> = Vec::new();
        self.add_invalid_link_diagnostics(&mut diags);
        self.add_incomplete_link_diagnostics(warning_policy, &mut diags);
        self.warn_on_absolute_links(warning_policy, &mut diags, files);
        diags
    }

    /// Adds a report for every incomplete link, unless the policy ignores
    /// them.
    pub fn add_incomplete_link_diagnostics(
        &self,
        warning_policy: WarningPolicy,
        diags: &mut Vec<Diagnostic>,
    )
        ensures
            diagnostics_view(final(diags)@) == diagnostics_view(old(diags)@) + incomplete_reports(
                warning_policy,
                self.incomplete_links@,
            ),
    {
        let handling = ErrorHandling { warning_policy };
        let ghost start = diagnostics_view(diags@);
        let ghost want = incomplete_reports(warning_policy, self.incomplete_links@);
        let mut i: usize = 0;
        while i < self.incomplete_links.len()
            invariant
                i <= self.incomplete_links.len(),
                handling.warning_policy == warning_policy,
                want == incomplete_reports(warning_policy, self.incomplete_links@),
                severity_of(warning_policy) is Some ==> diagnostics_view(diags@) == start
                    + want.take(i as int),
                severity_of(warning_policy) is None ==> diagnostics_view(diags@) == start,
            decreases self.incomplete_links.len() - i,
        {
            match handling.on_incomplete_link(&self.incomplete_links[i]) {
                Some(report) => {
                    let ghost before = diagnostics_view(diags@);
                    diags.push(report);
                    assert(diagnostics_view(diags@) =~= before.push(report@));
                },
                None => {},
            }
            i += 1;
        }
    }

    /// Adds a report for every invalid link.
    pub fn add_invalid_link_diagnostics(&self, diags: &mut Vec<Diagnostic>)
        ensures
            diagnostics_view(final(diags)@) == diagnostics_view(old(diags)@) + invalid_reports(
                self.invalid_links@,
            ),
    {
        let handling = ErrorHandling { warning_policy: WarningPolicy::Error };
        let ghost start = diagnostics_view(diags@);
        let ghost want = invalid_reports(self.invalid_links@);
        let mut i: usize = 0;
        while i < self.invalid_links.len()
            invariant
                i <= self.invalid_links.len(),
                want == invalid_reports(self.invalid_links@),
                diagnostics_view(diags@) == start + want.take(i as int),
            decreases self.invalid_links.len() - i,
        {
            match handling.on_invalid_link(&self.invalid_links[i]) {
                Some(report) => {
                    let ghost before = diagnostics_view(diags@);
                    diags.push(report);
                    assert(diagnostics_view(diags@) =~= before.push(report@));
                },
                None => {},
            }
            i += 1;
        }
    }

    /// Adds a report for every valid link that starts at the root of the
    /// book, unless the policy ignores them: such a link leads astray when
    /// the document is read from the file system. Only the first report
    /// says so at length.
    pub fn warn_on_absolute_links(
        &self,
        warning_policy: WarningPolicy,
        diags: &mut Vec<Diagnostic>,
        files: &Vec<Document>,
    )
        requires
            forall|i: int|
                0 <= i < self.valid_links@.len() ==> (#[trigger] self.valid_links@[i]).file
                    < files@.len(),
        ensures
            diagnostics_view(final(diags)@) == diagnostics_view(old(diags)@)
                + absolute_link_reports(warning_policy, self.valid_links@, files@),
    {
        let handling = ErrorHandling { warning_policy };
        let ghost start = diagnostics_view(diags@);
        let severity = match handling.severity() {
            Some(severity) => severity,
            None => {
                return ;
            },
        };
        let ghost valid = self.valid_links@;
        let mut reasoning_emitted = false;
        let mut i: usize = 0;
        while i < self.valid_links.len()
            invariant
                i <= self.valid_links.len(),
                valid == self.valid_links@,
                handling.warning_policy == warning_policy,
                severity_of(warning_policy) == Some(severity),
                forall|k: int| 0 <= k < valid.len() ==> (#[trigger] valid[k]).file < files@.len(),
                diagnostics_view(diags@) == start + absolute_reports(
                    severity,
                    valid.take(i as int),
                    files@,
                ),
                reasoning_emitted == (absolute_reports(severity, valid.take(i as int), files@).len()
                    > 0),
            decreases self.valid_links.len() - i,
        {
            let link = &self.valid_links[i];
            proof {
                assert(valid.take(i + 1).drop_last() =~= valid.take(i as int));
            }
            if starts_at_root(link.href.as_str()) {
                let explain = !reasoning_emitted;
                match handling.on_absolute_link(link, explain, files[link.file].path.as_str()) {
                    Some(report) => {
                        let ghost before = diagnostics_view(diags@);
                        diags.push(report);
                        assert(diagnostics_view(diags@) =~= before.push(report@));
                    },
                    None => {},
                }
                reasoning_emitted = true;
            }
            i += 1;
        }
        assert(valid.take(valid.len() as int) =~= valid);
    }
}

/// How the links of a book in `src_dir` are resolved: a link to an `html`
/// file may stand for the `md` file it is made from, a link to a directory
/// stands for its `README.md`, and links leave `src_dir` only if the
/// configuration allows it.
pub fn filesystem_options(cfg: &Config, src_dir: &str) -> (options: Options)
    ensures
        options.root_directory@ == src_dir@,
        options.default_file@ == "README.md"@,
        options.links_may_traverse_the_root_directory == cfg.traverse_parent_directories,
        table_view(options.alternate_extensions@) == seq![("html"@, seq!["md"@])],
{
    let mut alternates: Vec<String> = Vec::new();
    alternates.push("md".to_owned());
    assert(strings_view(alternates@) =~= seq!["md"@]);
    let mut table: Vec<(String, Vec<String>)> = Vec::new();
    table.push(("html".to_owned(), alternates));
    Options {
        root_directory: src_dir.to_owned(),
        default_file: "README.md".to_owned(),
        links_may_traverse_the_root_directory: cfg.traverse_parent_directories,
        alternate_extensions: table,
    }
}

/// The paths of the documents.
pub open spec fn paths_of(files: Seq<Document>) -> Seq<Seq<char>> {
    files.map_values(|d: Document| d.path@)
}

/// The reports for absolute links depend on nothing but what the links
/// hold and on the paths of their documents.
pub proof fn lemma_absolute_reports_by_content(
    severity: Severity,
    a: Seq<Link>,
    b: Seq<Link>,
    files_a: Seq<Document>,
    files_b: Seq<Document>,
)
    requires
        links_view(a) == links_view(b),
        paths_of(files_a) == paths_of(files_b),
        forall|i: int| 0 <= i < a.len() ==> (#[trigger] a[i]).file < files_a.len(),
    ensures
        absolute_reports(severity, a, files_a) == absolute_reports(severity, b, files_b),
    decreases a.len(),
{
    let va = links_view(a);
    let vb = links_view(b);
    assert(a.len() == va.len() && b.len() == vb.len());
    if a.len() > 0 {
        let n = a.len() - 1;
        assert(links_view(a.drop_last()) =~= va.drop_last());
        assert(links_view(b.drop_last()) =~= vb.drop_last());
        lemma_absolute_reports_by_content(severity, a.drop_last(), b.drop_last(), files_a, files_b);
        assert(a.last()@ == va[n]);
        assert(files_a.len() == paths_of(files_a).len());
        assert(files_a[a.last().file as int].path@ == paths_of(files_a)[a.last().file as int]);
    }
}

/// Two outcomes that hold the same, for documents of the same paths, get
/// the same reports in the same order: the reports depend on nothing but
/// what was found.
pub proof fn lemma_reports_depend_on_content(
    a: ValidationOutcome,
    b: ValidationOutcome,
    files_a: Seq<Document>,
    files_b: Seq<Document>,
    policy: WarningPolicy,
)
    requires
        links_view(a.valid_links@) == links_view(b.valid_links@),
        invalid_view(a.invalid_links@) == invalid_view(b.invalid_links@),
        incomplete_view(a.incomplete_links@) == incomplete_view(
            b.incomplete_links@,
        ),
        paths_of(files_a) == paths_of(files_b),
        forall|i: int|
            0 <= i < a.valid_links@.len() ==> (#[trigger] a.valid_links@[i]).file < files_a.len(),
    ensures
        diagnostics_spec(a, files_a, policy) == diagnostics_spec(b, files_b, policy),
{
    let ia = invalid_view(a.invalid_links@);
    let ib = invalid_view(b.invalid_links@);
    assert(a.invalid_links@.len() == ia.len() && b.invalid_links@.len() == ib.len());
    assert forall|i: int| 0 <= i < a.invalid_links@.len() implies invalid_diagnostic(
        a.invalid_links@[i],
    ) == invalid_diagnostic(b.invalid_links@[i]) by {
        assert(a.invalid_links@[i]@ == ia[i]);
    }
    let ca = incomplete_view(a.incomplete_links@);
    let cb = incomplete_view(b.incomplete_links@);
    assert(a.incomplete_links@.len() == ca.len() && b.incomplete_links@.len() == cb.len());
    match severity_of(policy) {
        None => {},
        Some(severity) => {
            assert forall|i: int| 0 <= i < a.incomplete_links@.len() implies incomplete_diagnostic(
                severity,
                a.incomplete_links@[i],
            ) == incomplete_diagnostic(severity, b.incomplete_links@[i]) by {
                assert(a.incomplete_links@[i]@ == ca[i]);
            }
            lemma_absolute_reports_by_content(
                severity,
                a.valid_links@,
                b.valid_links@,
                files_a,
                files_b,
            );
        },
    }
}

/// No two items lie at the same place.
pub open spec fn distinct_places<T: Located>(items: Seq<T>) -> bool {
    forall|i: int, j: int|
        0 <= i < j < items.len() ==> (#[trigger] items[i]).location() != (
        #[trigger] items[j]).location()
}

/// Every item comes before those behind it.
pub open spec fn strictly_ordered<T: Located>(items: Seq<T>) -> bool {
    forall|i: int, j: int|
        0 <= i < j < items.len() ==> comes_before(
            (#[trigger] items[i]).location(),
            (#[trigger] items[j]).location(),
        )
}

/// Ordering items that lie at places of their own leaves them at places of
/// their own, and adds no item.
pub proof fn lemma_in_order_distinct<T: Located>(items: Seq<T>)
    requires
        distinct_places(items),
    ensures
        distinct_places(in_order(items)),
        forall|i: int| 0 <= i < in_order(items).len() ==> items.contains(#[trigger] in_order(items)[i]),
    decreases items.len(),
{
    if items.len() > 0 {
        let rest = items.skip(1);
        lemma_in_order_distinct(rest);
        let front = in_order(rest);
        let item = items[0];
        lemma_run_before(front, item.location());
    }
}

/// Two lists in which every item comes before those behind it, and which
/// hold the same items, are the same list.
pub proof fn lemma_strictly_ordered_unique<T: Located>(x: Seq<T>, y: Seq<T>)
    requires
        strictly_ordered(x),
        strictly_ordered(y),
        x.to_multiset() == y.to_multiset(),
    ensures
        x == y,
    decreases x.len(),
{
    broadcast use vstd::seq_lib::group_to_multiset_ensures;

    vstd::seq_lib::to_multiset_len(x);
    if x.len() > 0 {
        assert(x.to_multiset().contains(x[0]));
        assert(y.to_multiset().contains(y[0]));
        let i = choose|i: int| #![trigger x.spec_index(i)] 0 <= i < x.len() && x[i] == y[0];
        let k = choose|k: int| #![trigger y.spec_index(k)] 0 <= k < y.len() && y[k] == x[0];
        let xs = x.drop_first();
        let ys = y.drop_first();
        vstd::seq_lib::to_multiset_remove(x, 0);
        vstd::seq_lib::to_multiset_remove(y, 0);
        lemma_strictly_ordered_unique(xs, ys);
        assert(x =~= seq![x[0]] + xs);
    }
}

/// The order in which the items come in does not show: two lists that hold
/// the same items, each at a place of its own, are put in the same order.
pub proof fn lemma_order_is_canonical<T: Located>(a: Seq<T>, b: Seq<T>)
    requires
        a.to_multiset() == b.to_multiset(),
        distinct_places(a),
        distinct_places(b),
    ensures
        in_order(a) == in_order(b),
{
    lemma_in_order(a);
    lemma_in_order(b);
    lemma_in_order_distinct(a);
    lemma_in_order_distinct(b);
    let x = in_order(a);
    let y = in_order(b);
    lemma_strictly_ordered_unique(x, y);
}

/// The directories of the links with the links in each, as `collate_links`
/// groups them.
pub open spec fn collated(links: Seq<LinkView>, dirs: Seq<Seq<char>>) -> Seq<
    (Seq<char>, Seq<LinkView>),
> {
    Seq::new(
        distinct(dirs).len(),
        |k: int| (distinct(dirs)[k], links_in(links, dirs, distinct(dirs)[k])),
    )
}

/// What is to be done for the links of every group, group by group.
pub open spec fn all_steps<V: CustomValidation>(
    groups: Seq<(Seq<char>, Seq<LinkView>)>,
    ctx: Context<V>,
    cache: Map<Seq<char>, CacheEntry>,
    now: u64,
) -> Seq<StepView>
    decreases groups.len(),
{
    if groups.len() == 0 {
        Seq::empty()
    } else {
        all_steps(groups.drop_last(), ctx, cache, now) + steps_for(
            groups.last().1,
            groups.last().0,
            ctx,
            cache,
            now,
        )
    }
}

/// What one list of steps and then another come to is what the one comes
/// to and then what the other comes to, kind by kind.
pub proof fn lemma_steps_append(a: Seq<StepView>, b: Seq<StepView>)
    ensures
        valid_of(a + b) == valid_of(a) + valid_of(b),
        invalid_of(a + b) == invalid_of(a) + invalid_of(b),
        ignored_of(a + b) == ignored_of(a) + ignored_of(b),
        unknown_of(a + b) == unknown_of(a) + unknown_of(b),
        requests_of(a + b) == requests_of(a) + requests_of(b),
    decreases b.len(),
{
    if b.len() > 0 {
        lemma_steps_append(a, b.drop_last());
        assert((a + b).drop_last() =~= a + b.drop_last());
    }
}

/// Checks the links of the documents in one directory, as far as that can
/// be done without a request: what is judged is added to `outcomes`, and the
/// requests that have to be made are added to `requests`.
pub fn validate_directory<V: CustomValidation>(
    current_directory: &str,
    links: &Vec<Link>,
    ctx: &Context<V>,
    cache: &mut Cache,
    now: u64,
    outcomes: &mut Outcomes,
    requests: &mut Vec<WebRequest>,
)
    ensures
        final(cache)@ == old(cache)@,
        ({
            let steps = steps_for(
                links_view(links@),
                current_directory@,
                *ctx,
                old(cache)@,
                now,
            );
            &&& links_view(final(outcomes).valid@) == links_view(
                old(outcomes).valid@,
            ) + valid_of(steps)
            &&& invalid_view(final(outcomes).invalid@) == invalid_view(old(outcomes).invalid@)
                + invalid_of(steps)
            &&& links_view(final(outcomes).ignored@) == links_view(
                old(outcomes).ignored@,
            ) + ignored_of(steps)
            &&& links_view(final(outcomes).unknown_category@)
                == links_view(old(outcomes).unknown_category@) + unknown_of(steps)
            &&& requests_view(final(requests)@) == requests_view(old(requests)@) + requests_of(
                steps,
            )
        }),
{
    let ghost known = cache@;
    let ghost steps = steps_for(
        links_view(links@),
        current_directory@,
        *ctx,
        known,
        now,
    );
    let ghost v0 = links_view(outcomes.valid@);
    let ghost i0 = invalid_view(outcomes.invalid@);
    let ghost g0 = links_view(outcomes.ignored@);
    let ghost u0 = links_view(outcomes.unknown_category@);
    let ghost r0 = requests_view(requests@);
    let mut i: usize = 0;
    while i < links.len()
        invariant
            i <= links.len(),
            cache@ == known,
            steps == steps_for(
                links_view(links@),
                current_directory@,
                *ctx,
                known,
                now,
            ),
            links_view(outcomes.valid@) == v0 + valid_of(steps.take(i as int)),
            invalid_view(outcomes.invalid@) == i0 + invalid_of(steps.take(i as int)),
            links_view(outcomes.ignored@) == g0 + ignored_of(steps.take(i as int)),
            links_view(outcomes.unknown_category@) == u0 + unknown_of(
                steps.take(i as int),
            ),
            requests_view(requests@) == r0 + requests_of(steps.take(i as int)),
        decreases links.len() - i,
    {
        let ghost va = links_view(outcomes.valid@);
        let ghost ia = invalid_view(outcomes.invalid@);
        let ghost ga = links_view(outcomes.ignored@);
        let ghost ua = links_view(outcomes.unknown_category@);
        let ghost ra = requests_view(requests@);
        proof {
            assert(steps.take(i + 1).drop_last() =~= steps.take(i as int));
        }
        match check_link(clone_link(&links[i]), current_directory, ctx, cache, now) {
            Step::Done(outcome) => {
                let ghost judged = outcome;
                outcomes.push(outcome);
                proof {
                    match judged {
                        Outcome::Valid(l) => {
                            assert(links_view(outcomes.valid@) =~= va.push(l@));
                        },
                        Outcome::Invalid(x) => {
                            assert(invalid_view(outcomes.invalid@) =~= ia.push(x@));
                        },
                        Outcome::Ignored(l) => {
                            assert(links_view(outcomes.ignored@) =~= ga.push(l@));
                        },
                        Outcome::UnknownCategory(l) => {
                            assert(links_view(outcomes.unknown_category@) =~= ua.push(
                                l@,
                            ));
                        },
                    }
                }
            },
            Step::Request(request) => {
                let ghost asked = request@;
                requests.push(request);
                assert(requests_view(requests@) =~= ra.push(asked));
            },
        }
        i += 1;
    }
    assert(steps.take(steps.len() as int) =~= steps);
}

/// Checks all the links of a book in `src_dir`, directory by directory, as
/// far as that can be done without a request. The result holds what is
/// judged, and the requests that have to be made for the rest.
pub fn lc_validate<V: CustomValidation>(
    links: &Vec<Link>,
    src_dir: &str,
    ctx: &Context<V>,
    cache: &mut Cache,
    files: &Vec<Document>,
    now: u64,
) -> (r: (Outcomes, Vec<WebRequest>))
    requires
        forall|i: int| 0 <= i < links@.len() ==> (#[trigger] links@[i]).file < files@.len(),
    ensures
        final(cache)@ == old(cache)@,
        ({
            let lv = links_view(links@);
            let steps = all_steps(
                collated(lv, link_directories(lv, src_dir@, files@)),
                *ctx,
                old(cache)@,
                now,
            );
            &&& links_view(r.0.valid@) == valid_of(steps)
            &&& invalid_view(r.0.invalid@) == invalid_of(steps)
            &&& links_view(r.0.ignored@) == ignored_of(steps)
            &&& links_view(r.0.unknown_category@) == unknown_of(steps)
            &&& requests_view(r.1@) == requests_of(steps)
        }),
{
    let ghost known = cache@;
    let ghost lv = links_view(links@);
    let ghost want = collated(lv, link_directories(lv, src_dir@, files@));
    let groups = collate_links(links, src_dir, files);
    let mut outcomes = Outcomes::empty();
    let mut requests: Vec<WebRequest> = Vec::new();
    let mut g: usize = 0;
    while g < groups.len()
        invariant
            g <= groups.len(),
            cache@ == known,
            groups_view(groups@) == want,
            links_view(outcomes.valid@) == valid_of(
                all_steps(want.take(g as int), *ctx, known, now),
            ),
            invalid_view(outcomes.invalid@) == invalid_of(
                all_steps(want.take(g as int), *ctx, known, now),
            ),
            links_view(outcomes.ignored@) == ignored_of(
                all_steps(want.take(g as int), *ctx, known, now),
            ),
            links_view(outcomes.unknown_category@) == unknown_of(
                all_steps(want.take(g as int), *ctx, known, now),
            ),
            requests_view(requests@) == requests_of(
                all_steps(want.take(g as int), *ctx, known, now),
            ),
        decreases groups.len() - g,
    {
        proof {
            assert(want.take(g + 1).drop_last() =~= want.take(g as int));
            lemma_steps_append(
                all_steps(want.take(g as int), *ctx, known, now),
                steps_for(want[g as int].1, want[g as int].0, *ctx, known, now),
            );
        }
        validate_directory(
            groups[g].0.as_str(),
            &groups[g].1,
            ctx,
            cache,
            now,
            &mut outcomes,
            &mut requests,
        );
        g += 1;
    }
    assert(want.take(want.len() as int) =~= want);
    (outcomes, requests)
}

/// The cache once the answers are remembered, one after the other, at the
/// time `now`.
pub open spec fn remembered(
    cache: Map<Seq<char>, CacheEntry>,
    answers: Seq<(WebRequest, WebResponse)>,
    now: u64,
) -> Map<Seq<char>, CacheEntry>
    decreases answers.len(),
{
    if answers.len() == 0 {
        cache
    } else {
        remembered(cache, answers.drop_last(), now).insert(
            answers.last().0.url@,
            CacheEntry { unix_timestamp: now, successful: succeeded(answers.last().1) },
        )
    }
}

/// What the links of the answered requests come to, as steps.
pub open spec fn answered(answers: Seq<(WebRequest, WebResponse)>) -> Seq<StepView> {
    answers.map_values(|a: (WebRequest, WebResponse)| StepView::Done(answer_outcome(a.0@, a.1)))
}

/// Judges the links of the requests by the responses that came, adds what
/// they come to to `outcomes`, and remembers every response in the cache.
pub fn finish_requests(
    answers: Vec<(WebRequest, WebResponse)>,
    cache: &mut Cache,
    now: u64,
    outcomes: &mut Outcomes,
)
    ensures
        final(cache)@ == remembered(old(cache)@, answers@, now),
        final(cache).hits() == old(cache).hits(),
        final(cache).misses() == old(cache).misses(),
        links_view(final(outcomes).valid@) == links_view(
            old(outcomes).valid@,
        ) + valid_of(answered(answers@)),
        invalid_view(final(outcomes).invalid@) == invalid_view(old(outcomes).invalid@) + invalid_of(
            answered(answers@),
        ),
        final(outcomes).ignored@ == old(outcomes).ignored@,
        final(outcomes).unknown_category@ == old(outcomes).unknown_category@,
{
    let ghost all = answers@;
    let ghost steps = answered(all);
    let ghost known = cache@;
    let ghost v0 = links_view(outcomes.valid@);
    let ghost i0 = invalid_view(outcomes.invalid@);
    let total: usize = answers.len();
    let mut answers = answers;
    let mut rest: Vec<(WebRequest, WebResponse)> = Vec::new();
    // The answers are taken from the end, so they are turned around first.
    while answers.len() > 0
        invariant
            answers@.len() + rest@.len() == all.len(),
            answers@ == all.take(answers@.len() as int),
            forall|k: int| 0 <= k < rest@.len() ==> rest@[k] == all[all.len() - 1 - k],
        decreases answers.len(),
    {
        match answers.pop() {
            Some(answer) => {
                rest.push(answer);
            },
            None => {},
        }
    }
    let mut done: usize = 0;
    while rest.len() > 0
        invariant
            done + rest@.len() == all.len(),
            all.len() == total,
            steps == answered(all),
            forall|k: int| 0 <= k < rest@.len() ==> rest@[k] == all[all.len() - 1 - k],
            cache@ == remembered(known, all.take(done as int), now),
            cache.hits() == old(cache).hits(),
            cache.misses() == old(cache).misses(),
            links_view(outcomes.valid@) == v0 + valid_of(steps.take(done as int)),
            invalid_view(outcomes.invalid@) == i0 + invalid_of(steps.take(done as int)),
            outcomes.ignored@ == old(outcomes).ignored@,
            outcomes.unknown_category@ == old(outcomes).unknown_category@,
        decreases rest.len(),
    {
        let ghost va = links_view(outcomes.valid@);
        let ghost ia = invalid_view(outcomes.invalid@);
        match rest.pop() {
            Some((request, response)) => {
                proof {
                    assert(all.take(done + 1).drop_last() =~= all.take(done as int));
                    assert(steps.take(done + 1).drop_last() =~= steps.take(done as int));
                }
                let outcome = finish_request(request, response, cache, now);
                let ghost judged = outcome;
                outcomes.push(outcome);
                proof {
                    match judged {
                        Outcome::Valid(l) => {
                            assert(links_view(outcomes.valid@) =~= va.push(l@));
                        },
                        Outcome::Invalid(x) => {
                            assert(invalid_view(outcomes.invalid@) =~= ia.push(x@));
                        },
                        _ => {},
                    }
                }
                done += 1;
            },
            None => {},
        }
    }
    proof {
        assert(all.take(all.len() as int) =~= all);
        assert(steps.take(steps.len() as int) =~= steps);
    }
}

} // verus!
