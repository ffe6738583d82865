//! Sorting links by what they point at, and checking one link.

use crate::cache::{counted, Cache, CacheEntry};
use crate::config::{pairs_view, Config};
use crate::context::{header_lists, headers_for, ignored, site_patterns, Context};
use crate::links::{Link, LinkView};
use crate::paths::{
    ascii_lower, components, components_of, copy_range, extension, extension_of, file_name_of,
    has_root, is_normal_component, normalize_from, normalize_onto, parent_components, parent_of,
    path_starts_with, path_text, path_to_string, replace_extension, same_chars, same_components,
    split_components, starts_with, strip_root, to_ascii_lower, views, with_extension,
};
use crate::text::{chars_of, copy_subrange, str_equal, string_of};
use vstd::prelude::*;
use vstd::utf8::{decode_utf8, encode_utf8, valid_utf8};

verus! {

/// What `url::Url::parse` makes of a text: the URL in its normal form, with
/// its scheme, its path and its fragment, or `None` where the text is no URL.
pub uninterp spec fn url_parts_of(text: Seq<char>) -> Option<UrlPartsView>;

/// What [`UrlParts`] holds.
pub struct UrlPartsView {
    /// The URL in its normal form.
    pub url: Seq<char>,
    /// The scheme, in lower case, without the `:`.
    pub scheme: Seq<char>,
    /// The path, as it is written in the URL.
    pub path: Seq<char>,
    /// What stands behind the `#`, if there is one.
    pub fragment: Option<Seq<char>>,
}

/// The parts of a URL that the checks look at.
#[derive(Debug, Clone, PartialEq, Eq)]
pub struct UrlParts {
    /// The URL in its normal form.
    pub url: String,
    /// The scheme, in lower case, without the `:`.
    pub scheme: String,
    /// The path, as it is written in the URL.
    pub path: String,
    /// What stands behind the `#`, if there is one.
    pub fragment: Option<String>,
}

/// The text of an optional string.
pub open spec fn option_view(text: Option<String>) -> Option<Seq<char>> {
    match text {
        Some(s) => Some(s@),
        None => None,
    }
}

impl View for UrlParts {
    type V = UrlPartsView;

    open spec fn view(&self) -> UrlPartsView {
        UrlPartsView {
            url: self.url@,
            scheme: self.scheme@,
            path: self.path@,
            fragment: option_view(self.fragment),
        }
    }
}

/// Calls `url::Url::parse` and takes the text of the URL with its scheme,
/// its path and its fragment, which `url_parts_of` names.
#[verifier::external_body]
fn parse_url(text: &str) -> (parts: Option<UrlParts>)
    ensures
        match url_parts_of(text@) {
            Some(p) => parts matches Some(u) && u@ == p,
            None => parts is None,
        },
{
    url::Url::parse(text).ok().map(|u| UrlParts {
        url: u.as_str().to_string(),
        scheme: u.scheme().to_string(),
        path: u.path().to_string(),
        fragment: u.fragment().map(String::from),
    })
}

/// What a link points at.
#[derive(Debug, Clone, PartialEq, Eq)]
pub enum Category {
    /// A local file.
    FileSystem {
        /// The path of the file, as the link has it.
        path: String,
        /// The place in the file, if the link names one.
        fragment: Option<String>,
    },
    /// Somewhere else in the current document.
    CurrentFile {
        /// The place in the document.
        anchor: String,
    },
    /// Something on the web.
    Url(String),
    /// Something that is reached in a way that is not known.
    Unknown,
}

/// What a [`Category`] holds.
pub enum CategoryView {
    /// A local file.
    FileSystem { path: Seq<char>, fragment: Option<Seq<char>> },
    /// Somewhere else in the current document.
    CurrentFile { anchor: Seq<char> },
    /// Something on the web.
    Url(Seq<char>),
    /// Something that is reached in a way that is not known.
    Unknown,
}

impl View for Category {
    type V = CategoryView;

    open spec fn view(&self) -> CategoryView {
        match self {
            Category::FileSystem { path, fragment } => CategoryView::FileSystem {
                path: path@,
                fragment: option_view(*fragment),
            },
            Category::CurrentFile { anchor } => CategoryView::CurrentFile { anchor: anchor@ },
            Category::Url(url) => CategoryView::Url(url@),
            Category::Unknown => CategoryView::Unknown,
        }
    }
}

/// The position of the first `#` at or behind `from`.
pub open spec fn find_hash(s: Seq<char>, from: int) -> Option<int>
    decreases s.len() - from,
{
    if from < 0 || from >= s.len() {
        None
    } else if s[from] == '#' {
        Some(from)
    } else {
        find_hash(s, from + 1)
    }
}

/// A link into the file system: one without a path points into the
/// current document.
pub open spec fn local_link(path: Seq<char>, fragment: Option<Seq<char>>) -> CategoryView {
    if path.len() == 0 {
        CategoryView::CurrentFile {
            anchor: match fragment {
                Some(f) => f,
                None => Seq::empty(),
            },
        }
    } else {
        CategoryView::FileSystem { path, fragment }
    }
}

/// What the link `href` points at, given what it is as a URL. The schemes
/// `http` and `https` lead to the web, the scheme `file` and a link that is
/// no URL lead to the file system, every other scheme is unknown.
pub open spec fn categorise_spec(href: Seq<char>, parts: Option<UrlPartsView>) -> CategoryView {
    match parts {
        Some(u) => {
            if u.scheme == "http"@ || u.scheme == "https"@ {
                CategoryView::Url(u.url)
            } else if u.scheme == "file"@ {
                local_link(u.path, u.fragment)
            } else {
                CategoryView::Unknown
            }
        },
        None => match find_hash(href, 0) {
            Some(at) => local_link(href.take(at), Some(href.skip(at + 1))),
            None => local_link(href, None),
        },
    }
}

/// A link into the file system.
fn local_category(path: String, fragment: Option<String>) -> (category: Category)
    ensures
        category@ == local_link(path@, option_view(fragment)),
{
    if path.as_str().is_empty() {
        let anchor = match fragment {
            Some(f) => f,
            None => String::new(),
        };
        Category::CurrentFile { anchor }
    } else {
        Category::FileSystem { path, fragment }
    }
}

/// Sorts the link `href` by what it points at, given what it is as a URL.
pub fn categorise_parsed(href: &str, parts: Option<UrlParts>) -> (category: Category)
    ensures
        category@ == categorise_spec(
            href@,
            match parts {
                Some(u) => Some(u@),
                None => None,
            },
        ),
{
    match parts {
        Some(u) => {
            if str_equal(u.scheme.as_str(), "http") || str_equal(u.scheme.as_str(), "https") {
                Category::Url(u.url)
            } else if str_equal(u.scheme.as_str(), "file") {
                local_category(u.path, u.fragment)
            } else {
                Category::Unknown
            }
        },
        None => {
            let chars = chars_of(href);
            let mut at: usize = 0;
            while at < chars.len() && chars[at] != '#'
                invariant
                    at <= chars.len(),
                    find_hash(chars@, 0) == find_hash(chars@, at as int),
                decreases chars.len() - at,
            {
                at += 1;
            }
            if at < chars.len() {
                let path = string_of(&copy_subrange(&chars, 0, at));
                let fragment = string_of(
                    &copy_subrange(&chars, at + 1, chars.len()),
                );
                local_category(path, Some(fragment))
            } else {
                local_category(href.to_owned(), None)
            }
        },
    }
}

/// Sorts the link `href` by what it points at.
pub fn categorise(href: &str) -> (category: Category)
    ensures
        category@ == categorise_spec(href@, url_parts_of(href@)),
{
    categorise_parsed(href, parse_url(href))
}

/// Whether a link that is this as a URL leads to the web: it is a URL with
/// the scheme `http` or `https`.
pub open spec fn is_remote(parts: Option<UrlPartsView>) -> bool {
    parts matches Some(u) && (u.scheme == "http"@ || u.scheme == "https"@)
}

/// Whether the link `href` leads to the web.
pub fn is_web_link(href: &str) -> (r: bool)
    ensures
        r == is_remote(url_parts_of(href@)),
{
    match parse_url(href) {
        Some(u) => str_equal(u.scheme.as_str(), "http") || str_equal(u.scheme.as_str(), "https"),
        None => false,
    }
}

/// The value of a hexadecimal digit.
pub open spec fn hex_value(b: u8) -> Option<u8> {
    if 48 <= b <= 57 {
        Some((b - 48) as u8)
    } else if 97 <= b <= 102 {
        Some((b - 87) as u8)
    } else if 65 <= b <= 70 {
        Some((b - 55) as u8)
    } else {
        None
    }
}

/// Whether a `%` with two hexadecimal digits stands at `at`.
pub open spec fn escape_at(b: Seq<u8>, at: int) -> bool {
    0 <= at && at + 2 < b.len() && b[at] == 37 && hex_value(b[at + 1]) is Some && hex_value(
        b[at + 2],
    ) is Some
}

/// The bytes from `at` on, with every `%` and its two hexadecimal digits
/// replaced by the byte they name.
pub open spec fn percent_decode_bytes(b: Seq<u8>, at: int) -> Seq<u8>
    decreases b.len() - at,
{
    if at < 0 || at >= b.len() {
        Seq::empty()
    } else if escape_at(b, at) {
        seq![(hex_value(b[at + 1])->Some_0 * 16 + hex_value(b[at + 2])->Some_0) as u8]
            + percent_decode_bytes(b, at + 3)
    } else {
        seq![b[at]] + percent_decode_bytes(b, at + 1)
    }
}

/// The path with its percent escapes decoded. Where the decoded bytes are
/// no text, the path stays as it is written.
pub open spec fn percent_decode_spec(path: Seq<char>) -> Seq<char> {
    let decoded = percent_decode_bytes(encode_utf8(path), 0);
    if valid_utf8(decoded) {
        decode_utf8(decoded)
    } else {
        path
    }
}

/// Calls `String::from_utf8`: it takes the bytes exactly when they are valid
/// UTF-8, and the string then holds the characters that they encode.
#[verifier::external_body]
fn string_from_utf8(bytes: Vec<u8>) -> (r: Option<String>)
    ensures
        r is Some <==> valid_utf8(bytes@),
        r matches Some(s) ==> s@ == decode_utf8(bytes@),
{
    String::from_utf8(bytes).ok()
}

/// The value of a hexadecimal digit.
fn hex_digit(b: u8) -> (v: Option<u8>)
    ensures
        v == hex_value(b),
{
    if 48 <= b && b <= 57 {
        Some(b - 48)
    } else if 97 <= b && b <= 102 {
        Some(b - 87)
    } else if 65 <= b && b <= 70 {
        Some(b - 55)
    } else {
        None
    }
}

/// Decodes the percent escapes of a path.
pub fn percent_decode(path: &str) -> (out: String)
    ensures
        out@ == percent_decode_spec(path@),
{
    let bytes = path.as_bytes();
    let ghost b = bytes@;
    let n: usize = bytes.len();
    let mut decoded: Vec<u8> = Vec::new();
    let mut i: usize = 0;
    while i < n
        invariant
            i <= n,
            n == bytes@.len(),
            b == bytes@,
            percent_decode_bytes(b, 0) == decoded@ + percent_decode_bytes(b, i as int),
        decreases n - i,
    {
        let mut step: usize = 1;
        let mut byte: u8 = bytes[i];
        if byte == 37 && n - i > 2 {
            match (hex_digit(bytes[i + 1]), hex_digit(bytes[i + 2])) {
                (Some(hi), Some(lo)) => {
                    byte = hi * 16 + lo;
                    step = 3;
                },
                _ => {},
            }
        }
        decoded.push(byte);
        i += step;
    }
    match string_from_utf8(decoded) {
        Some(text) => text,
        None => path.to_owned(),
    }
}

/// An error that is emitted if something links to a file that exists on disk,
/// but isn't included in the book.
#[derive(Debug, Clone, PartialEq, Eq)]
pub struct NotInSummary {
    /// The file's path, relative to the book's source directory.
    pub path: String,
}

/// Possible reasons for a bad link.
#[derive(Debug, Clone, PartialEq, Eq)]
pub enum Reason {
    /// The file that the link points at is not there.
    FileNotFound,
    /// The link goes outside of the book's source directory.
    TraversesRestrictedDirectory,
    /// The file is there, but the book does not list it.
    NotRegisteredInTableOfContents(NotInSummary),
    /// The server answered with a status that is no success, when it was
    /// asked for the URL.
    RemoteStatus(u16, String),
    /// The request could not be made, or got no answer.
    RemoteTransportError(String),
    /// A rule of the caller's own refused the link.
    CustomPolicyViolation(String),
}

/// What a [`Reason`] holds.
pub enum ReasonView {
    /// The file that the link points at is not there.
    FileNotFound,
    /// The link goes outside of the book's source directory.
    TraversesRestrictedDirectory,
    /// The file is there, but the book does not list it.
    NotRegisteredInTableOfContents(Seq<char>),
    /// The server answered with a status that is no success, when it was
    /// asked for the URL.
    RemoteStatus(u16, Seq<char>),
    /// The request could not be made, or got no answer.
    RemoteTransportError(Seq<char>),
    /// A rule of the caller's own refused the link.
    CustomPolicyViolation(Seq<char>),
}

impl View for Reason {
    type V = ReasonView;

    open spec fn view(&self) -> ReasonView {
        match self {
            Reason::FileNotFound => ReasonView::FileNotFound,
            Reason::TraversesRestrictedDirectory => ReasonView::TraversesRestrictedDirectory,
            Reason::NotRegisteredInTableOfContents(e) => ReasonView::NotRegisteredInTableOfContents(
                e.path@,
            ),
            Reason::RemoteStatus(code, url) => ReasonView::RemoteStatus(*code, url@),
            Reason::RemoteTransportError(message) => ReasonView::RemoteTransportError(message@),
            Reason::CustomPolicyViolation(message) => ReasonView::CustomPolicyViolation(message@),
        }
    }
}

/// What is known of the files on disk: the paths of the files and of the
/// directories that are there, each absolute and without `.` or `..`.
#[derive(Debug, Clone, PartialEq, Eq)]
pub struct FileTree {
    /// The files.
    pub files: Vec<String>,
    /// The directories.
    pub directories: Vec<String>,
}

/// How links into the file system are resolved.
#[derive(Debug, Clone, PartialEq, Eq)]
pub struct Options {
    /// The book's source directory, as an absolute path without `.` or `..`.
    pub root_directory: String,
    /// The name of the file that a link to a directory stands for.
    pub default_file: String,
    /// Are links allowed to go outside of `root_directory`?
    pub links_may_traverse_the_root_directory: bool,
    /// For an extension, the extensions under which the file may be found
    /// instead. Extensions are compared without regard to case.
    pub alternate_extensions: Vec<(String, Vec<String>)>,
}

/// The texts that the strings hold.
pub open spec fn strings_view(list: Seq<String>) -> Seq<Seq<char>> {
    list.map_values(|s: String| s@)
}

/// The table of alternate extensions as texts.
pub open spec fn table_view(table: Seq<(String, Vec<String>)>) -> Seq<(Seq<char>, Seq<Seq<char>>)> {
    table.map_values(|e: (String, Vec<String>)| (e.0@, strings_view(e.1@)))
}

/// Whether one of the entries is the path `path`.
pub open spec fn has_path(entries: Seq<Seq<char>>, path: Seq<Seq<char>>) -> bool {
    exists|i: int| 0 <= i < entries.len() && components(#[trigger] entries[i]) == path
}

/// The path that the link `link` of a document in the directory `dir` names
/// before the disk is looked at: a link that starts with `/` leads from the
/// root directory, any other from `dir`.
pub open spec fn joined_path(root: Seq<Seq<char>>, dir: Seq<Seq<char>>, link: Seq<char>) -> Seq<
    Seq<char>,
> {
    if has_root(link) {
        normalize_from(root, strip_root(components(link)))
    } else {
        normalize_from(dir, components(link))
    }
}

/// The alternates of the first entry of the table for the extension `ext`,
/// which is in lower case.
pub open spec fn alternates_for(table: Seq<(Seq<char>, Seq<Seq<char>>)>, ext: Seq<char>) -> Seq<
    Seq<char>,
>
    decreases table.len(),
{
    if table.len() == 0 {
        Seq::empty()
    } else if ascii_lower(table[0].0) == ext {
        table[0].1
    } else {
        alternates_for(table.skip(1), ext)
    }
}

/// The path `path` with each of the extensions `alts` in turn.
pub open spec fn with_alternates(path: Seq<Seq<char>>, alts: Seq<Seq<char>>) -> Seq<Seq<Seq<char>>> {
    alts.map_values(|alt: Seq<char>| path.drop_last().push(with_extension(path.last(), alt)))
}

/// The paths under which the file that `joined` names may be found: the path
/// itself, then the path with each alternate of its extension.
pub open spec fn possible_names(
    joined: Seq<Seq<char>>,
    table: Seq<(Seq<char>, Seq<Seq<char>>)>,
) -> Seq<Seq<Seq<char>>> {
    if file_name_of(joined) is Some && extension_of(joined.last()) is Some {
        seq![joined] + with_alternates(
            joined,
            alternates_for(table, ascii_lower(extension_of(joined.last())->Some_0)),
        )
    } else {
        seq![joined]
    }
}

/// The first of the paths that is a file or a directory on disk.
pub open spec fn first_existing(
    names: Seq<Seq<Seq<char>>>,
    files: Seq<Seq<char>>,
    directories: Seq<Seq<char>>,
) -> Option<Seq<Seq<char>>>
    decreases names.len(),
{
    if names.len() == 0 {
        None
    } else if has_path(files, names[0]) || has_path(directories, names[0]) {
        Some(names[0])
    } else {
        first_existing(names.skip(1), files, directories)
    }
}

/// The path that a link stands for once the disk was looked at: the first
/// possible name that is there, or else the name as it is, and in a
/// directory the default file.
pub open spec fn resolved_path(
    joined: Seq<Seq<char>>,
    table: Seq<(Seq<char>, Seq<Seq<char>>)>,
    default_file: Seq<char>,
    files: Seq<Seq<char>>,
    directories: Seq<Seq<char>>,
) -> Seq<Seq<char>> {
    let candidate = match first_existing(possible_names(joined, table), files, directories) {
        Some(c) => c,
        None => joined,
    };
    if has_path(directories, candidate) {
        candidate.push(default_file)
    } else {
        candidate
    }
}

/// The path that the link `link` of a document in the directory `dir`
/// stands for.
pub open spec fn target_spec(dir: Seq<char>, link: Seq<char>, options: Options, tree: FileTree)
    -> Seq<Seq<char>> {
    resolved_path(
        joined_path(components(options.root_directory@), components(dir), link),
        table_view(options.alternate_extensions@),
        options.default_file@,
        strings_view(tree.files@),
        strings_view(tree.directories@),
    )
}

/// The file that the link `link` of a document in the directory `dir`
/// points at, or why it points at none. A path outside of the root directory
/// is refused unless links may go there; then the file has to be on disk.
pub open spec fn resolve_spec(dir: Seq<char>, link: Seq<char>, options: Options, tree: FileTree)
    -> Result<Seq<Seq<char>>, ReasonView> {
    let root = components(options.root_directory@);
    let resolved = target_spec(dir, link, options, tree);
    if !options.links_may_traverse_the_root_directory && !starts_with(resolved, root) {
        Err(ReasonView::TraversesRestrictedDirectory)
    } else if !has_path(strings_view(tree.files@), resolved) {
        Err(ReasonView::FileNotFound)
    } else {
        Ok(resolved)
    }
}

/// Whether one of the entries is the path `path`.
pub fn contains_path(entries: &Vec<String>, path: &Vec<Vec<char>>) -> (found: bool)
    ensures
        found == has_path(strings_view(entries@), views(path@)),
{
    let ghost e = strings_view(entries@);
    let mut i: usize = 0;
    while i < entries.len()
        invariant
            i <= entries.len(),
            e == strings_view(entries@),
            forall|k: int| 0 <= k < i ==> components(#[trigger] e[k]) != views(path@),
        decreases entries.len() - i,
    {
        let entry = components_of(entries[i].as_str());
        if same_components(&entry, path) {
            assert(components(e[i as int]) == views(path@));
            return true;
        }
        i += 1;
    }
    false
}

/// The alternates of the first entry of the table for the extension `ext`.
fn find_alternates<'a>(table: &'a Vec<(String, Vec<String>)>, ext: &Vec<char>) -> (alts: Option<
    &'a Vec<String>,
>)
    ensures
        match alts {
            Some(list) => strings_view(list@) == alternates_for(table_view(table@), ext@),
            None => alternates_for(table_view(table@), ext@) == Seq::<Seq<char>>::empty(),
        },
{
    let ghost t = table_view(table@);
    let mut i: usize = 0;
    assert(t.skip(0) =~= t);
    while i < table.len()
        invariant
            i <= table.len(),
            t == table_view(table@),
            alternates_for(t, ext@) == alternates_for(t.skip(i as int), ext@),
        decreases table.len() - i,
    {
        proof {
            assert(t.skip(i as int).skip(1) =~= t.skip(i + 1));
        }
        let key = to_ascii_lower(&chars_of(table[i].0.as_str()));
        if same_chars(&key, ext) {
            return Some(&table[i].1);
        }
        i += 1;
    }
    None
}

/// The path that the joined path `joined` stands for once the disk was
/// looked at.
fn resolve_on_disk(joined: Vec<Vec<char>>, options: &Options, tree: &FileTree) -> (resolved: Vec<
    Vec<char>,
>)
    ensures
        views(resolved@) == resolved_path(
            views(joined@),
            table_view(options.alternate_extensions@),
            options.default_file@,
            strings_view(tree.files@),
            strings_view(tree.directories@),
        ),
{
    let ghost j = views(joined@);
    let ghost table = table_view(options.alternate_extensions@);
    let ghost files = strings_view(tree.files@);
    let ghost dirs = strings_view(tree.directories@);
    let ghost names = possible_names(j, table);
    let mut candidate: Option<Vec<Vec<char>>> = None;
    let ghost first = first_existing(names, files, dirs);
    if !contains_path(&tree.files, &joined) && !contains_path(&tree.directories, &joined) {
        assert(first == first_existing(names.skip(1), files, dirs));
        let n: usize = joined.len();
        if n > 0 && is_normal_component(&joined[n - 1]) {
            match extension(&joined[n - 1]) {
                Some(ext) => {
                    let lower = to_ascii_lower(&ext);
                    match find_alternates(&options.alternate_extensions, &lower) {
                        Some(alts) => {
                            let ghost a = strings_view(alts@);
                            let ghost rest = with_alternates(j, a);
                            assert(names.skip(1) =~= rest);
                            let mut k: usize = 0;
                            assert(rest.skip(0) =~= rest);
                            while k < alts.len() && candidate.is_none()
                                invariant
                                    k <= alts.len(),
                                    n == joined@.len(),
                                    n > 0,
                                    j == views(joined@),
                                    a == strings_view(alts@),
                                    rest == with_alternates(j, a),
                                    files == strings_view(tree.files@),
                                    dirs == strings_view(tree.directories@),
                                    match candidate {
                                        Some(c) => first_existing(rest, files, dirs) == Some(
                                            views(c@),
                                        ),
                                        None => first_existing(rest, files, dirs)
                                            == first_existing(rest.skip(k as int), files, dirs),
                                    },
                                decreases
                                        2 * (alts.len() - k) + (if candidate is None {
                                            1int
                                        } else {
                                            0int
                                        }),
                            {
                                proof {
                                    assert(rest.skip(k as int).skip(1) =~= rest.skip(k + 1));
                                }
                                let alt = chars_of(alts[k].as_str());
                                let name = replace_extension(&joined[n - 1], &alt);
                                let mut other = copy_range(&joined, 0, n - 1);
                                let ghost front = views(other@);
                                other.push(name);
                                proof {
                                    assert(views(other@) =~= front.push(
                                        with_extension(j.last(), a[k as int]),
                                    ));
                                }
                                if contains_path(&tree.files, &other) || contains_path(
                                    &tree.directories,
                                    &other,
                                ) {
                                    candidate = Some(other);
                                } else {
                                    k += 1;
                                }
                            }
                        },
                        None => {},
                    }
                },
                None => {},
            }
        }
    }
    let mut resolved = match candidate {
        Some(c) => c,
        None => joined,
    };
    if contains_path(&tree.directories, &resolved) {
        let ghost before = views(resolved@);
        resolved.push(chars_of(options.default_file.as_str()));
    }
    resolved
}

/// The path that the link `link` of a document in the directory
/// `current_directory` names before the disk is looked at.
fn join_link(current_directory: &str, link: &str, root: &Vec<Vec<char>>) -> (joined: Vec<Vec<char>>)
    ensures
        views(joined@) == joined_path(views(root@), components(current_directory@), link@),
{
    let link_chars = chars_of(link);
    let link_components = split_components(&link_chars);
    if link_chars.len() > 0 && link_chars[0] == '/' {
        let n: usize = link_components.len();
        assert(views(link_components@).len() == n);
        let rest = copy_range(&link_components, 1, n);
        let base = copy_range(root, 0, root.len());
        assert(views(base@) =~= views(root@));
        normalize_onto(base, &rest)
    } else {
        let dir = components_of(current_directory);
        normalize_onto(dir, &link_components)
    }
}

/// The paths as texts.
pub open spec fn path_texts(paths: Seq<Seq<Seq<char>>>) -> Seq<Seq<char>> {
    paths.map_values(|p: Seq<Seq<char>>| path_text(p))
}

/// The paths under which the file that the link `link` of a document in the
/// directory `current_directory` points at may be found: what has to be
/// known of the disk before the link can be resolved. `link` is the path of
/// the link as it is written.
pub fn possible_paths(current_directory: &str, link: &str, options: &Options) -> (paths: Vec<String>)
    ensures
        strings_view(paths@) == path_texts(
            possible_names(
                joined_path(
                    components(options.root_directory@),
                    components(current_directory@),
                    percent_decode_spec(link@),
                ),
                table_view(options.alternate_extensions@),
            ),
        ),
{
    let root = components_of(options.root_directory.as_str());
    let decoded = percent_decode(link);
    let joined = join_link(current_directory, decoded.as_str(), &root);
    let ghost j = views(joined@);
    let mut paths: Vec<String> = Vec::new();
    paths.push(path_to_string(&joined));
    let n: usize = joined.len();
    if n > 0 && is_normal_component(&joined[n - 1]) {
        match extension(&joined[n - 1]) {
            Some(ext) => {
                let lower = to_ascii_lower(&ext);
                match find_alternates(&options.alternate_extensions, &lower) {
                    Some(alts) => {
                        let ghost a = strings_view(alts@);
                        let ghost rest = with_alternates(j, a);
                        let mut k: usize = 0;
                        while k < alts.len()
                            invariant
                                k <= alts.len(),
                                n == joined@.len(),
                                n > 0,
                                j == views(joined@),
                                a == strings_view(alts@),
                                rest == with_alternates(j, a),
                                strings_view(paths@) == path_texts(seq![j] + rest.take(k as int)),
                            decreases alts.len() - k,
                        {
                            let alt = chars_of(alts[k].as_str());
                            let name = replace_extension(&joined[n - 1], &alt);
                            let mut other = copy_range(&joined, 0, n - 1);
                            let ghost front = views(other@);
                            other.push(name);
                            proof {
                                assert(views(other@) =~= front.push(
                                    with_extension(j.last(), a[k as int]),
                                ));
                            }
                            let ghost before = strings_view(paths@);
                            paths.push(path_to_string(&other));
                            proof {
                                assert(strings_view(paths@) =~= before.push(path_text(rest[k as int])));
                            }
                            k += 1;
                        }
                    },
                    None => {},
                }
            },
            None => {},
        }
    }
    paths
}

/// Finds the file that the link `link` of a document in the directory
/// `current_directory` points at.
pub fn resolve_link(current_directory: &str, link: &str, options: &Options, tree: &FileTree) -> (r:
    Result<String, Reason>)
    ensures
        match resolve_spec(current_directory@, link@, *options, *tree) {
            Ok(path) => r matches Ok(s) && s@ == path_text(path),
            Err(reason) => r matches Err(e) && e@ == reason,
        },
{
    let root = components_of(options.root_directory.as_str());
    let joined = join_link(current_directory, link, &root);
    let resolved = resolve_on_disk(joined, options, tree);
    if !options.links_may_traverse_the_root_directory && !path_starts_with(&resolved, &root) {
        Err(Reason::TraversesRestrictedDirectory)
    } else if !contains_path(&tree.files, &resolved) {
        Err(Reason::FileNotFound)
    } else {
        Ok(path_to_string(&resolved))
    }
}

/// A link that resolves outside of the root directory is refused for going
/// there exactly when links may not leave the root directory. When they may,
/// it is checked like any other: it is valid if its file is on disk, and
/// missing otherwise.
pub proof fn lemma_traversal_policy(dir: Seq<char>, link: Seq<char>, options: Options, tree: FileTree)
    requires
        !starts_with(target_spec(dir, link, options, tree), components(options.root_directory@)),
    ensures
        resolve_spec(dir, link, options, tree) == Err::<Seq<Seq<char>>, ReasonView>(
            ReasonView::TraversesRestrictedDirectory,
        ) <==> !options.links_may_traverse_the_root_directory,
        options.links_may_traverse_the_root_directory ==> resolve_spec(dir, link, options, tree)
            == if has_path(strings_view(tree.files@), target_spec(dir, link, options, tree)) {
            Ok::<Seq<Seq<char>>, ReasonView>(target_spec(dir, link, options, tree))
        } else {
            Err::<Seq<Seq<char>>, ReasonView>(ReasonView::FileNotFound)
        },
{
}

/// A link that resolves at or below the root directory is never refused for
/// leaving it.
pub proof fn lemma_inside_the_root(dir: Seq<char>, link: Seq<char>, options: Options, tree: FileTree)
    requires
        starts_with(target_spec(dir, link, options, tree), components(options.root_directory@)),
    ensures
        resolve_spec(dir, link, options, tree) != Err::<Seq<Seq<char>>, ReasonView>(
            ReasonView::TraversesRestrictedDirectory,
        ),
{
}

/// The text of an optional string slice.
pub open spec fn str_option_view(text: Option<&str>) -> Option<Seq<char>> {
    match text {
        Some(s) => Some(s@),
        None => None,
    }
}

/// A rule of the caller's own that a file on disk has to pass before a link
/// to it is valid.
pub trait CustomValidation {
    /// The reason for which the rule refuses the file `resolved`, if it
    /// does. `fragment` is the place in the file that the link names.
    spec fn verdict(&self, resolved: Seq<char>, fragment: Option<Seq<char>>) -> Option<ReasonView>;

    /// Applies the rule to the file `resolved`.
    fn validate(&self, resolved: &str, fragment: Option<&str>) -> (r: Result<(), Reason>)
        ensures
            match self.verdict(resolved@, str_option_view(fragment)) {
                Some(reason) => r matches Err(e) && e@ == reason,
                None => r is Ok,
            },
    ;
}

/// The rule that refuses nothing.
#[derive(Debug, Clone, Copy, PartialEq, Eq)]
pub struct NoCustomValidation;

impl CustomValidation for NoCustomValidation {
    open spec fn verdict(&self, resolved: Seq<char>, fragment: Option<Seq<char>>) -> Option<
        ReasonView,
    > {
        None
    }

    fn validate(&self, resolved: &str, fragment: Option<&str>) -> (r: Result<(), Reason>) {
        Ok(())
    }
}

/// Whether the link `path` of a document in the directory `dir` is valid, or
/// why it is not: the escapes of the path are decoded, the file it points at
/// is found, and the rule `verdict` is asked about that file.
pub open spec fn check_filesystem_spec(
    dir: Seq<char>,
    path: Seq<char>,
    options: Options,
    tree: FileTree,
    verdict: spec_fn(Seq<char>) -> Option<ReasonView>,
) -> Result<(), ReasonView> {
    match resolve_spec(dir, percent_decode_spec(path), options, tree) {
        Err(reason) => Err(reason),
        Ok(resolved) => match verdict(path_text(resolved)) {
            Some(reason) => Err(reason),
            None => Ok(()),
        },
    }
}

/// Check whether a path points to a valid file on disk.
pub fn check_filesystem<V: CustomValidation>(
    current_directory: &str,
    path: &str,
    fragment: Option<&str>,
    options: &Options,
    tree: &FileTree,
    custom: &V,
) -> (r: Result<(), Reason>)
    ensures
        match check_filesystem_spec(
            current_directory@,
            path@,
            *options,
            *tree,
            |resolved: Seq<char>| custom.verdict(resolved, str_option_view(fragment)),
        ) {
            Ok(()) => r is Ok,
            Err(reason) => r matches Err(e) && e@ == reason,
        },
{
    let decoded = percent_decode(path);
    match resolve_link(current_directory, decoded.as_str(), options, tree) {
        Err(reason) => Err(reason),
        Ok(resolved) => custom.validate(resolved.as_str(), fragment),
    }
}

/// Check whether a path points to a valid file on disk, with the rule that
/// the file has to pass given as a function. Where no file is found, the
/// rule is not asked; where one is found, the rule is asked about it, and
/// what it answers is the result.
pub fn check_filesystem_with<F: Fn(&str, Option<&str>) -> Result<(), Reason>>(
    current_directory: &str,
    path: &str,
    fragment: Option<&str>,
    options: &Options,
    tree: &FileTree,
    custom: F,
) -> (r: Result<(), Reason>)
    requires
        forall|resolved: &str, fragment: Option<&str>| call_requires(custom, (resolved, fragment)),
    ensures
        match resolve_spec(current_directory@, percent_decode_spec(path@), *options, *tree) {
            Err(reason) => r matches Err(e) && e@ == reason,
            Ok(resolved) => exists|text: &str|
                text@ == path_text(resolved) && call_ensures(custom, (text, fragment), r),
        },
{
    let decoded = percent_decode(path);
    match resolve_link(current_directory, decoded.as_str(), options, tree) {
        Err(reason) => Err(reason),
        Ok(resolved) => custom(resolved.as_str(), fragment),
    }
}

/// A link and the reason why it is invalid.
#[derive(Debug, Clone, PartialEq, Eq)]
pub struct InvalidLink {
    /// The invalid link.
    pub link: Link,
    /// Why is this link invalid?
    pub reason: Reason,
}

impl View for InvalidLink {
    type V = (LinkView, ReasonView);

    open spec fn view(&self) -> (LinkView, ReasonView) {
        (self.link@, self.reason@)
    }
}

/// What the check of one link came to.
#[derive(Debug, Clone, PartialEq, Eq)]
pub enum Outcome {
    /// The link is valid.
    Valid(Link),
    /// The link is broken.
    Invalid(InvalidLink),
    /// The link was skipped.
    Ignored(Link),
    /// The link is of a kind that is not known.
    UnknownCategory(Link),
}

/// What an [`Outcome`] holds.
pub enum OutcomeView {
    /// The link is valid.
    Valid(LinkView),
    /// The link is broken, for this reason.
    Invalid(LinkView, ReasonView),
    /// The link was skipped.
    Ignored(LinkView),
    /// The link is of a kind that is not known.
    UnknownCategory(LinkView),
}

impl View for Outcome {
    type V = OutcomeView;

    open spec fn view(&self) -> OutcomeView {
        match self {
            Outcome::Valid(l) => OutcomeView::Valid(l@),
            Outcome::Invalid(i) => OutcomeView::Invalid(i.link@, i.reason@),
            Outcome::Ignored(l) => OutcomeView::Ignored(l@),
            Outcome::UnknownCategory(l) => OutcomeView::UnknownCategory(l@),
        }
    }
}

/// A request that has to be made before a link to the web can be judged.
#[derive(Debug, Clone, PartialEq, Eq)]
pub struct WebRequest {
    /// The link that is checked.
    pub link: Link,
    /// The URL to ask for.
    pub url: String,
    /// The user agent to ask as.
    pub user_agent: String,
    /// The extra headers to send, in the order in which they are set.
    pub headers: Vec<(String, String)>,
}

/// What a [`WebRequest`] holds.
pub struct WebRequestView {
    /// The link that is checked.
    pub link: LinkView,
    /// The URL to ask for.
    pub url: Seq<char>,
    /// The user agent to ask as.
    pub user_agent: Seq<char>,
    /// The extra headers to send, in the order in which they are set.
    pub headers: Seq<(Seq<char>, Seq<char>)>,
}

impl View for WebRequest {
    type V = WebRequestView;

    open spec fn view(&self) -> WebRequestView {
        WebRequestView {
            link: self.link@,
            url: self.url@,
            user_agent: self.user_agent@,
            headers: pairs_view(self.headers@),
        }
    }
}

/// What a [`Step`] holds.
pub enum StepView {
    /// The link is judged.
    Done(OutcomeView),
    /// The link can be judged once the request was made.
    Request(WebRequestView),
}

/// What is to be done for a link.
#[derive(Debug, Clone, PartialEq, Eq)]
pub enum Step {
    /// The link is judged.
    Done(Outcome),
    /// The link can be judged once the request was made.
    Request(WebRequest),
}

impl View for Step {
    type V = StepView;

    open spec fn view(&self) -> StepView {
        match self {
            Step::Done(outcome) => StepView::Done(outcome@),
            Step::Request(request) => StepView::Request(request@),
        }
    }
}

/// What a request came to.
#[derive(Debug, Clone, PartialEq, Eq)]
pub enum WebResponse {
    /// The server answered with this status.
    Status(u16),
    /// The request failed before an answer came.
    Failed(String),
}

/// Whether the status is one of success.
pub open spec fn is_success(code: u16) -> bool {
    200 <= code < 300
}

/// Whether the response spares the next request for the same URL.
pub open spec fn succeeded(response: WebResponse) -> bool {
    response matches WebResponse::Status(code) && is_success(code)
}

/// Whether the cache spares the request for `url` at the time `now`.
pub open spec fn cached_valid(
    cache: Map<Seq<char>, CacheEntry>,
    url: Seq<char>,
    now: u64,
    timeout: u64,
) -> bool {
    cache.contains_key(url) && cache[url].still_valid(now, timeout)
}

/// The cache `after` is the cache `before` with one more lookup counted,
/// that of `url`.
pub open spec fn looked_up(before: Cache, after: Cache, url: Seq<char>) -> bool {
    &&& after@ == before@
    &&& after.hits() == if before@.contains_key(url) {
        counted(before.hits())
    } else {
        before.hits()
    }
    &&& after.misses() == if before@.contains_key(url) {
        before.misses()
    } else {
        counted(before.misses())
    }
}

/// The cache `after` is the cache `before`, counters and all.
pub open spec fn untouched(before: Cache, after: Cache) -> bool {
    after@ == before@ && after.hits() == before.hits() && after.misses() == before.misses()
}

/// Looks `url` up in the cache and tells whether the request for it is
/// spared: the cache has an entry for it that is successful and younger
/// than `timeout` seconds.
pub fn already_valid(url: &str, cache: &mut Cache, now: u64, timeout: u64) -> (valid: bool)
    ensures
        valid == cached_valid(old(cache)@, url@, now, timeout),
        final(cache)@ == old(cache)@,
        looked_up(*old(cache), *final(cache), url@),
{
    match cache.lookup(url) {
        Some(entry) => entry.is_still_valid(now, timeout),
        None => false,
    }
}

/// Judges a link to the web by the response to its request, and remembers
/// the result for `url` in place of what was known of it. Any status of the
/// class 2xx is a success.
pub fn record_response(url: &str, response: WebResponse, cache: &mut Cache, now: u64) -> (r: Result<
    (),
    Reason,
>)
    ensures
        final(cache)@ == old(cache)@.insert(
            url@,
            CacheEntry { unix_timestamp: now, successful: succeeded(response) },
        ),
        final(cache).hits() == old(cache).hits(),
        final(cache).misses() == old(cache).misses(),
        match response {
            WebResponse::Status(code) => if is_success(code) {
                r is Ok
            } else {
                r matches Err(e) && e@ == ReasonView::RemoteStatus(code, url@)
            },
            WebResponse::Failed(message) => r matches Err(e) && e@
                == ReasonView::RemoteTransportError(message@),
        },
{
    let result = match response {
        WebResponse::Status(code) => if 200 <= code && code < 300 {
            Ok(())
        } else {
            Err(Reason::RemoteStatus(code, url.to_owned()))
        },
        WebResponse::Failed(message) => Err(Reason::RemoteTransportError(message)),
    };
    cache.insert(url.to_owned(), CacheEntry::new(now, result.is_ok()));
    result
}

/// What is to be done for a link to `url`: the link is valid if the cache
/// spares the request, and otherwise the request is to be made, as the
/// configured user agent and with the extra headers for the URL.
pub open spec fn external_step<V: CustomValidation>(
    link: LinkView,
    url: Seq<char>,
    ctx: Context<V>,
    cache: Map<Seq<char>, CacheEntry>,
    now: u64,
) -> StepView {
    if cached_valid(cache, url, now, ctx.cfg.cache_timeout) {
        StepView::Done(OutcomeView::Valid(link))
    } else {
        StepView::Request(
            WebRequestView {
                link,
                url,
                user_agent: ctx.cfg.user_agent@,
                headers: headers_for(
                    site_patterns(*ctx.cfg),
                    header_lists(ctx.interpolated_headers@),
                    url,
                ),
            },
        )
    }
}

/// Checks a link to the web as far as the cache allows: either the cache
/// spares the request and the link is valid, or the request is handed out
/// with the extra headers for its URL.
pub fn validate_external_link<V: CustomValidation>(
    link: Link,
    url: String,
    ctx: &Context<V>,
    cache: &mut Cache,
    now: u64,
) -> (step: Step)
    ensures
        looked_up(*old(cache), *final(cache), url@),
        step@ == external_step(link@, url@, *ctx, old(cache)@, now),
{
    if already_valid(url.as_str(), cache, now, ctx.cfg.cache_timeout) {
        Step::Done(Outcome::Valid(link))
    } else {
        let headers = ctx.url_specific_headers(url.as_str());
        Step::Request(WebRequest { link, url, user_agent: ctx.cfg.user_agent.clone(), headers })
    }
}

/// Judges the link of a request by the response that came, and remembers
/// the result.
pub fn finish_request(request: WebRequest, response: WebResponse, cache: &mut Cache, now: u64) -> (outcome:
    Outcome)
    ensures
        final(cache)@ == old(cache)@.insert(
            request.url@,
            CacheEntry { unix_timestamp: now, successful: succeeded(response) },
        ),
        final(cache).hits() == old(cache).hits(),
        final(cache).misses() == old(cache).misses(),
        outcome@ == answer_outcome(request@, response),
{
    match record_response(request.url.as_str(), response, cache, now) {
        Ok(()) => Outcome::Valid(request.link),
        Err(reason) => Outcome::Invalid(InvalidLink { link: request.link, reason }),
    }
}

/// What the check of a link into the book comes to: the file it points at
/// has to be found, and has to pass the rule of the context.
pub open spec fn book_outcome<V: CustomValidation>(
    link: LinkView,
    path: Seq<char>,
    fragment: Option<Seq<char>>,
    dir: Seq<char>,
    ctx: Context<V>,
) -> OutcomeView {
    match check_filesystem_spec(
        dir,
        path,
        *ctx.filesystem_options,
        *ctx.tree,
        |resolved: Seq<char>| ctx.custom_validation.verdict(resolved, fragment),
    ) {
        Ok(()) => OutcomeView::Valid(link),
        Err(reason) => OutcomeView::Invalid(link, reason),
    }
}

/// Checks a link into the book: the file it points at has to be found, and
/// has to pass the rule of the context.
pub fn check_link_in_book<V: CustomValidation>(
    link: Link,
    path: &str,
    fragment: Option<&str>,
    current_directory: &str,
    ctx: &Context<V>,
) -> (outcome: Outcome)
    ensures
        outcome@ == book_outcome(link@, path@, str_option_view(fragment), current_directory@, *ctx),
{
    match check_filesystem(
        current_directory,
        path,
        fragment,
        ctx.filesystem_options,
        ctx.tree,
        ctx.custom_validation,
    ) {
        Ok(()) => Outcome::Valid(link),
        Err(reason) => Outcome::Invalid(InvalidLink { link, reason }),
    }
}

/// The text of an optional string, borrowed.
pub fn as_deref(text: &Option<String>) -> (r: Option<&str>)
    ensures
        str_option_view(r) == option_view(*text),
{
    match text {
        Some(s) => Some(s.as_str()),
        None => None,
    }
}

/// What is to be done for a link of a document in the directory `dir`. A
/// link that is skipped is ignored, as is one into the current document; a
/// link into the file system is judged by the files on disk; a link of an
/// unknown kind is reported as such; a link to the web is valid if the cache
/// spares its request, and otherwise the request is to be made.
pub open spec fn step_spec<V: CustomValidation>(
    link: LinkView,
    dir: Seq<char>,
    ctx: Context<V>,
    cache: Map<Seq<char>, CacheEntry>,
    now: u64,
) -> StepView {
    if ignored(*ctx.cfg, link.href) {
        StepView::Done(OutcomeView::Ignored(link))
    } else {
        match categorise_spec(link.href, url_parts_of(link.href)) {
            CategoryView::FileSystem { path, fragment } => StepView::Done(
                book_outcome(link, path, fragment, dir, ctx),
            ),
            CategoryView::CurrentFile { anchor } => StepView::Done(OutcomeView::Ignored(link)),
            CategoryView::Url(url) => external_step(link, url, ctx, cache, now),
            CategoryView::Unknown => StepView::Done(OutcomeView::UnknownCategory(link)),
        }
    }
}

/// Whether a check of the link `href` looks its URL up in the cache.
pub open spec fn asks_cache(cfg: Config, href: Seq<char>) -> Option<Seq<char>> {
    match categorise_spec(href, url_parts_of(href)) {
        CategoryView::Url(url) => if ignored(cfg, href) {
            None
        } else {
            Some(url)
        },
        _ => None,
    }
}

/// Checks one link of a document in the directory `current_directory`, as
/// far as that can be done without a request. The cache keeps what it holds;
/// for a link to the web that is not skipped, one lookup is counted.
pub fn check_link<V: CustomValidation>(
    link: Link,
    current_directory: &str,
    ctx: &Context<V>,
    cache: &mut Cache,
    now: u64,
) -> (step: Step)
    ensures
        step@ == step_spec(link@, current_directory@, *ctx, old(cache)@, now),
        final(cache)@ == old(cache)@,
        match asks_cache(*ctx.cfg, link.href@) {
            Some(url) => looked_up(*old(cache), *final(cache), url),
            None => untouched(*old(cache), *final(cache)),
        },
{
    if ctx.should_ignore(&link) {
        return Step::Done(Outcome::Ignored(link));
    }
    match categorise(link.href.as_str()) {
        Category::FileSystem { path, fragment } => {
            let outcome = check_link_in_book(
                link,
                path.as_str(),
                as_deref(&fragment),
                current_directory,
                ctx,
            );
            Step::Done(outcome)
        },
        Category::CurrentFile { anchor } => Step::Done(Outcome::Ignored(link)),
        Category::Url(url) => validate_external_link(link, url, ctx, cache, now),
        Category::Unknown => Step::Done(Outcome::UnknownCategory(link)),
    }
}

/// The valid links among the steps, in their order.
pub open spec fn valid_of(steps: Seq<StepView>) -> Seq<LinkView>
    decreases steps.len(),
{
    if steps.len() == 0 {
        Seq::empty()
    } else {
        match steps.last() {
            StepView::Done(OutcomeView::Valid(l)) => valid_of(steps.drop_last()).push(l),
            _ => valid_of(steps.drop_last()),
        }
    }
}

/// The invalid links among the steps, in their order.
pub open spec fn invalid_of(steps: Seq<StepView>) -> Seq<(LinkView, ReasonView)>
    decreases steps.len(),
{
    if steps.len() == 0 {
        Seq::empty()
    } else {
        match steps.last() {
            StepView::Done(OutcomeView::Invalid(l, r)) => invalid_of(steps.drop_last()).push((l, r)),
            _ => invalid_of(steps.drop_last()),
        }
    }
}

/// The ignored links among the steps, in their order.
pub open spec fn ignored_of(steps: Seq<StepView>) -> Seq<LinkView>
    decreases steps.len(),
{
    if steps.len() == 0 {
        Seq::empty()
    } else {
        match steps.last() {
            StepView::Done(OutcomeView::Ignored(l)) => ignored_of(steps.drop_last()).push(l),
            _ => ignored_of(steps.drop_last()),
        }
    }
}

/// The links of an unknown kind among the steps, in their order.
pub open spec fn unknown_of(steps: Seq<StepView>) -> Seq<LinkView>
    decreases steps.len(),
{
    if steps.len() == 0 {
        Seq::empty()
    } else {
        match steps.last() {
            StepView::Done(OutcomeView::UnknownCategory(l)) => unknown_of(steps.drop_last()).push(l),
            _ => unknown_of(steps.drop_last()),
        }
    }
}

/// The requests among the steps, in their order.
pub open spec fn requests_of(steps: Seq<StepView>) -> Seq<WebRequestView>
    decreases steps.len(),
{
    if steps.len() == 0 {
        Seq::empty()
    } else {
        match steps.last() {
            StepView::Request(r) => requests_of(steps.drop_last()).push(r),
            _ => requests_of(steps.drop_last()),
        }
    }
}

/// What is to be done for each of the links of the documents in the
/// directory `dir`.
pub open spec fn steps_for<V: CustomValidation>(
    links: Seq<LinkView>,
    dir: Seq<char>,
    ctx: Context<V>,
    cache: Map<Seq<char>, CacheEntry>,
    now: u64,
) -> Seq<StepView> {
    links.map_values(|l: LinkView| step_spec(l, dir, ctx, cache, now))
}

/// The requests as what they hold.
pub open spec fn requests_view(requests: Seq<WebRequest>) -> Seq<WebRequestView> {
    requests.map_values(|r: WebRequest| r@)
}

/// The invalid links as what they hold.
pub open spec fn invalid_view(list: Seq<InvalidLink>) -> Seq<(LinkView, ReasonView)> {
    list.map_values(|l: InvalidLink| l@)
}

/// Whether the link `path` of the document `chapter` leads outside of the
/// directory `src`, going by the text of the paths alone. A chapter without
/// a directory leads nowhere.
pub open spec fn outside_book(path: Seq<char>, chapter: Seq<char>, src: Seq<char>) -> bool {
    match parent_of(components(chapter)) {
        None => false,
        Some(dir) => !starts_with(normalize_from(dir, components(path)), components(src)),
    }
}

/// Whether the link `path` of the document `chapter` leads outside of the
/// directory `src`.
pub fn path_is_outside_book(path: &str, chapter: &str, src: &str) -> (outside: bool)
    ensures
        outside == outside_book(path@, chapter@, src@),
{
    let chapter_components = components_of(chapter);
    match parent_components(&chapter_components) {
        None => false,
        Some(dir) => {
            let joined = normalize_onto(dir, &components_of(path));
            !path_starts_with(&joined, &components_of(src))
        },
    }
}

/// What the link of a request comes to, given the response.
pub open spec fn answer_outcome(request: WebRequestView, response: WebResponse) -> OutcomeView {
    match response {
        WebResponse::Status(code) => if is_success(code) {
            OutcomeView::Valid(request.link)
        } else {
            OutcomeView::Invalid(request.link, ReasonView::RemoteStatus(code, request.url))
        },
        WebResponse::Failed(message) => OutcomeView::Invalid(
            request.link,
            ReasonView::RemoteTransportError(message@),
        ),
    }
}

/// An entry that is successful and younger than the timeout spares the
/// request: the link is valid, and nothing is asked of the web.
pub proof fn lemma_valid_entry_spares_request<V: CustomValidation>(
    link: LinkView,
    url: Seq<char>,
    ctx: Context<V>,
    cache: Map<Seq<char>, CacheEntry>,
    now: u64,
)
    requires
        cache.contains_key(url),
        cache[url].successful,
        cache[url].unix_timestamp <= now,
        now - cache[url].unix_timestamp < ctx.cfg.cache_timeout,
    ensures
        external_step(link, url, ctx, cache, now) == StepView::Done(OutcomeView::Valid(link)),
{
}

/// Once a request for a URL was answered with success, a check of the same
/// URL makes no request until the timeout has passed.
pub proof fn lemma_repeated_check_needs_no_request<V: CustomValidation>(
    link: LinkView,
    url: Seq<char>,
    ctx: Context<V>,
    cache: Map<Seq<char>, CacheEntry>,
    response: WebResponse,
    now: u64,
    later: u64,
)
    requires
        succeeded(response),
        now <= later,
        later - now < ctx.cfg.cache_timeout,
    ensures
        external_step(
            link,
            url,
            ctx,
            cache.insert(url, CacheEntry { unix_timestamp: now, successful: succeeded(response) }),
            later,
        ) == StepView::Done(OutcomeView::Valid(link)),
{
}

/// A link into the book that resolves outside of the root directory is
/// invalid for going there where links may not leave the root directory.
/// Where they may, it is judged like any other: by whether its file is on
/// disk, and then by the rule of the context.
pub proof fn lemma_book_traversal_policy<V: CustomValidation>(
    link: LinkView,
    path: Seq<char>,
    fragment: Option<Seq<char>>,
    dir: Seq<char>,
    ctx: Context<V>,
)
    requires
        !starts_with(
            target_spec(dir, percent_decode_spec(path), *ctx.filesystem_options, *ctx.tree),
            components(ctx.filesystem_options.root_directory@),
        ),
    ensures
        !ctx.filesystem_options.links_may_traverse_the_root_directory ==> book_outcome(
            link,
            path,
            fragment,
            dir,
            ctx,
        ) == OutcomeView::Invalid(link, ReasonView::TraversesRestrictedDirectory),
        ctx.filesystem_options.links_may_traverse_the_root_directory ==> book_outcome(
            link,
            path,
            fragment,
            dir,
            ctx,
        ) == ({
            let target = target_spec(
                dir,
                percent_decode_spec(path),
                *ctx.filesystem_options,
                *ctx.tree,
            );
            if !has_path(strings_view(ctx.tree.files@), target) {
                OutcomeView::Invalid(link, ReasonView::FileNotFound)
            } else {
                match ctx.custom_validation.verdict(path_text(target), fragment) {
                    Some(reason) => OutcomeView::Invalid(link, reason),
                    None => OutcomeView::Valid(link),
                }
            }
        }),
{
}

/// A link to the web that is not skipped, and for whose URL the cache holds
/// an entry that is successful and younger than the timeout, is valid
/// without a request.
pub proof fn lemma_spared_link_is_valid<V: CustomValidation>(
    link: LinkView,
    dir: Seq<char>,
    ctx: Context<V>,
    cache: Map<Seq<char>, CacheEntry>,
    now: u64,
)
    requires
        asks_cache(*ctx.cfg, link.href) matches Some(url) && cached_valid(
            cache,
            url,
            now,
            ctx.cfg.cache_timeout,
        ),
    ensures
        step_spec(link, dir, ctx, cache, now) == StepView::Done(OutcomeView::Valid(link)),
{
}

/// Whether the cache spares the request of every one of the links that
/// would need one.
pub open spec fn all_spared<V: CustomValidation>(
    links: Seq<LinkView>,
    ctx: Context<V>,
    cache: Map<Seq<char>, CacheEntry>,
    now: u64,
) -> bool {
    forall|i: int|
        0 <= i < links.len() ==> (asks_cache(*ctx.cfg, (#[trigger] links[i]).href) matches Some(url)
            ==> cached_valid(cache, url, now, ctx.cfg.cache_timeout))
}

/// However many links are checked: while the cache holds, for each link to
/// the web among them, an entry that is successful and younger than the
/// timeout, not one request is made.
pub proof fn lemma_spared_links_make_no_request<V: CustomValidation>(
    links: Seq<LinkView>,
    dir: Seq<char>,
    ctx: Context<V>,
    cache: Map<Seq<char>, CacheEntry>,
    now: u64,
)
    requires
        all_spared(links, ctx, cache, now),
    ensures
        requests_of(steps_for(links, dir, ctx, cache, now)) == Seq::<WebRequestView>::empty(),
    decreases links.len(),
{
    if links.len() > 0 {
        let front = links.drop_last();
        lemma_spared_links_make_no_request(front, dir, ctx, cache, now);
        let steps = steps_for(links, dir, ctx, cache, now);
        assert(steps.drop_last() =~= steps_for(front, dir, ctx, cache, now));
    }
}

/// The file that a link into the book points at, by the text of its path.
pub open spec fn book_target<V: CustomValidation>(path: Seq<char>, dir: Seq<char>, ctx: Context<V>)
    -> Seq<Seq<char>> {
    target_spec(dir, percent_decode_spec(path), *ctx.filesystem_options, *ctx.tree)
}

/// Whether a link to `target` is let through by the rule on the root
/// directory.
pub open spec fn may_point_at<V: CustomValidation>(target: Seq<Seq<char>>, ctx: Context<V>) -> bool {
    ctx.filesystem_options.links_may_traverse_the_root_directory || starts_with(
        target,
        components(ctx.filesystem_options.root_directory@),
    )
}

/// A link into the book whose file is on disk, where links may point, is
/// valid unless the rule of the context objects to the file.
pub proof fn lemma_link_to_a_file_on_disk<V: CustomValidation>(
    link: LinkView,
    path: Seq<char>,
    fragment: Option<Seq<char>>,
    dir: Seq<char>,
    ctx: Context<V>,
)
    requires
        may_point_at(book_target(path, dir, ctx), ctx),
        has_path(strings_view(ctx.tree.files@), book_target(path, dir, ctx)),
    ensures
        book_outcome(link, path, fragment, dir, ctx) == match ctx.custom_validation.verdict(
            path_text(book_target(path, dir, ctx)),
            fragment,
        ) {
            Some(reason) => OutcomeView::Invalid(link, reason),
            None => OutcomeView::Valid(link),
        },
{
}

/// A link into the book whose file is not on disk, where links may point,
/// is invalid because the file was not found.
pub proof fn lemma_link_to_a_missing_file<V: CustomValidation>(
    link: LinkView,
    path: Seq<char>,
    fragment: Option<Seq<char>>,
    dir: Seq<char>,
    ctx: Context<V>,
)
    requires
        may_point_at(book_target(path, dir, ctx), ctx),
        !has_path(strings_view(ctx.tree.files@), book_target(path, dir, ctx)),
    ensures
        book_outcome(link, path, fragment, dir, ctx) == OutcomeView::Invalid(
            link,
            ReasonView::FileNotFound,
        ),
{
}

} // verus!
