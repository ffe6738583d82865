//! The broken links of a chapter, each with the line it stands on.

use crate::text::{append_chars, decimal, decimal_chars, push_str, string_of};
use vstd::prelude::*;

verus! {

/// Some arbitrary broken link which occurs at a specific line in a chapter.
pub trait BrokenLink {
    /// The path of the chapter.
    spec fn chapter_spec(&self) -> Seq<char>;

    /// The line of the link.
    spec fn line_spec(&self) -> usize;

    /// Which chapter it was in.
    fn chapter(&self) -> (chapter: &str)
        ensures
            chapter@ == self.chapter_spec(),
    ;

    /// The line this error occurred on.
    fn line(&self) -> (line: usize)
        ensures
            line == self.line_spec(),
    ;
}

/// The user wrote a link that points nowhere.
#[derive(Debug, Clone, PartialEq, Eq)]
pub struct EmptyLink {
    /// The chapter of the link.
    pub chapter: String,
    /// The line of the link.
    pub line: usize,
}

impl EmptyLink {
    /// An empty link on the line `line` of `chapter`.
    pub fn new(chapter: String, line: usize) -> (error: EmptyLink)
        ensures
            error.chapter@ == chapter@,
            error.line == line,
    {
        EmptyLink { chapter, line }
    }

    /// What the error says.
    pub fn message(&self) -> (text: String)
        ensures
            text@ == "The link is empty"@,
    {
        "The link is empty".to_owned()
    }
}

impl BrokenLink for EmptyLink {
    open spec fn chapter_spec(&self) -> Seq<char> {
        self.chapter@
    }

    open spec fn line_spec(&self) -> usize {
        self.line
    }

    fn chapter(&self) -> (chapter: &str) {
        self.chapter.as_str()
    }

    fn line(&self) -> (line: usize) {
        self.line
    }
}

/// Received an unsuccessful status code when fetching a resource from the
/// internet.
#[derive(Debug, Clone, PartialEq, Eq)]
pub struct UnsuccessfulStatus {
    /// The URL that was asked for.
    pub url: String,
    /// The status of the answer.
    pub code: u16,
    /// The chapter of the link.
    pub chapter: String,
    /// The line of the link.
    pub line: usize,
}

impl UnsuccessfulStatus {
    /// The answer `code` for the link to `url` on the line `line` of
    /// `chapter`.
    pub fn new(url: String, code: u16, chapter: String, line: usize) -> (error: UnsuccessfulStatus)
        ensures
            error.url@ == url@,
            error.code == code,
            error.chapter@ == chapter@,
            error.line == line,
    {
        UnsuccessfulStatus { url, code, chapter, line }
    }

    /// What the error says.
    pub fn message(&self) -> (text: String)
        ensures
            text@ == "\""@ + self.url@ + "\" returned "@ + decimal(self.code as nat),
    {
        let mut out: Vec<char> = Vec::new();
        push_str(&mut out, "\"");
        push_str(&mut out, self.url.as_str());
        push_str(&mut out, "\" returned ");
        append_chars(&mut out, &decimal_chars(self.code as u64));
        string_of(&out)
    }
}

impl BrokenLink for UnsuccessfulStatus {
    open spec fn chapter_spec(&self) -> Seq<char> {
        self.chapter@
    }

    open spec fn line_spec(&self) -> usize {
        self.line
    }

    fn chapter(&self) -> (chapter: &str) {
        self.chapter.as_str()
    }

    fn line(&self) -> (line: usize) {
        self.line
    }
}

/// The user specified a file which doesn't exist.
#[derive(Debug, Clone, PartialEq, Eq)]
pub struct FileNotFound {
    /// The path of the link.
    pub path: String,
    /// The chapter of the link.
    pub chapter: String,
    /// The line of the link.
    pub line: usize,
}

impl FileNotFound {
    /// The missing file `path`, linked to on the line `line` of `chapter`.
    pub fn new(path: String, chapter: String, line: usize) -> (error: FileNotFound)
        ensures
            error.path@ == path@,
            error.chapter@ == chapter@,
            error.line == line,
    {
        FileNotFound { path, chapter, line }
    }

    /// What the error says.
    pub fn message(&self) -> (text: String)
        ensures
            text@ == "\""@ + self.path@ + "\" doesn't exist"@,
    {
        let mut out: Vec<char> = Vec::new();
        push_str(&mut out, "\"");
        push_str(&mut out, self.path.as_str());
        push_str(&mut out, "\" doesn't exist");
        string_of(&out)
    }
}

impl BrokenLink for FileNotFound {
    open spec fn chapter_spec(&self) -> Seq<char> {
        self.chapter@
    }

    open spec fn line_spec(&self) -> usize {
        self.line
    }

    fn chapter(&self) -> (chapter: &str) {
        self.chapter.as_str()
    }

    fn line(&self) -> (line: usize) {
        self.line
    }
}

/// An error occurred while trying to fetch the link from the internet.
#[derive(Debug, Clone, PartialEq, Eq)]
pub struct HttpError {
    /// The URL that was asked for.
    pub url: String,
    /// The chapter of the link.
    pub chapter: String,
    /// The line of the link.
    pub line: usize,
    /// What went wrong.
    pub error: String,
}

impl HttpError {
    /// The failure `error` of the request for `url`, linked to on the line
    /// `line` of `chapter`.
    pub fn new(url: String, chapter: String, line: usize, error: String) -> (failure: HttpError)
        ensures
            failure.url@ == url@,
            failure.chapter@ == chapter@,
            failure.line == line,
            failure.error@ == error@,
    {
        HttpError { url, chapter, line, error }
    }

    /// What the error says.
    pub fn message(&self) -> (text: String)
        ensures
            text@ == "There was an error while fetching \""@ + self.url@ + "\", "@ + self.error@,
    {
        let mut out: Vec<char> = Vec::new();
        push_str(&mut out, "There was an error while fetching \"");
        push_str(&mut out, self.url.as_str());
        push_str(&mut out, "\", ");
        push_str(&mut out, self.error.as_str());
        string_of(&out)
    }
}

impl BrokenLink for HttpError {
    open spec fn chapter_spec(&self) -> Seq<char> {
        self.chapter@
    }

    open spec fn line_spec(&self) -> usize {
        self.line
    }

    fn chapter(&self) -> (chapter: &str) {
        self.chapter.as_str()
    }

    fn line(&self) -> (line: usize) {
        self.line
    }
}

/// The link leaves the book's source directory.
#[derive(Debug, Clone, PartialEq, Eq)]
pub struct ForbiddenPath {
    /// The path of the link.
    pub path: String,
    /// The chapter of the link.
    pub chapter: String,
    /// The line of the link.
    pub line: usize,
}

impl ForbiddenPath {
    /// The forbidden path `path`, linked to on the line `line` of `chapter`.
    pub fn new(path: String, chapter: String, line: usize) -> (error: ForbiddenPath)
        ensures
            error.path@ == path@,
            error.chapter@ == chapter@,
            error.line == line,
    {
        ForbiddenPath { path, chapter, line }
    }

    /// What the error says.
    pub fn message(&self) -> (text: String)
        ensures
            text@ == "\""@ + self.path@ + "\" goes outside the book's source directory"@,
    {
        let mut out: Vec<char> = Vec::new();
        push_str(&mut out, "\"");
        push_str(&mut out, self.path.as_str());
        push_str(&mut out, "\" goes outside the book's source directory");
        string_of(&out)
    }
}

impl BrokenLink for ForbiddenPath {
    open spec fn chapter_spec(&self) -> Seq<char> {
        self.chapter@
    }

    open spec fn line_spec(&self) -> usize {
        self.line
    }

    fn chapter(&self) -> (chapter: &str) {
        self.chapter.as_str()
    }

    fn line(&self) -> (line: usize) {
        self.line
    }
}

} // verus!
