//! Validation of the hyperlinks found in the markdown documents of a book.
//!
//! The link-checking process has roughly four stages:
//!
//! 1. Find all the links in a body of markdown text (see [`extract_links`])
//! 2. Validate all the links we've found, taking into account cached results
//!    and configuration options
//! 3. Cache the results for reuse by step 2 in the next round
//! 4. Emit errors/warnings to the user

pub mod cache;
pub mod config;
pub mod context;
pub mod error_handling;
pub mod errors;
pub mod hashed_regex;
pub mod latex;
pub mod links;
pub mod paths;
pub mod text;
pub mod validate;
pub mod validation;

pub use crate::config::{Config, WarningPolicy};
pub use crate::context::Context;
pub use crate::hashed_regex::HashedRegex;
pub use crate::links::{extract as extract_links, Document, IncompleteLink, Link};
pub use crate::validate::{merge_outcomes, ValidationOutcome};
pub use crate::validation::NotInSummary;

use crate::validate::contains_text;
use crate::validation::strings_view;
use vstd::prelude::*;

verus! {

/// A semver range specifying which versions of `mdbook` this crate supports.
pub const COMPATIBLE_MDBOOK_VERSIONS: &'static str = "^0.4.0";

/// How a version stands to a version requirement.
#[derive(Debug, Clone, Copy, PartialEq, Eq, Structural)]
pub enum VersionMatch {
    /// The requirement is not well formed.
    InvalidRequirement,
    /// The version is not well formed.
    InvalidVersion,
    /// Both are well formed, and the version meets the requirement or not.
    Matches(bool),
}

/// A version requirement of the `semver` crate.
#[verifier::external_type_specification]
#[verifier::external_body]
pub struct ExVersionReq(semver::VersionReq);

/// A version of the `semver` crate.
#[verifier::external_type_specification]
#[verifier::external_body]
pub struct ExVersion(semver::Version);

/// The error with which the `semver` crate refuses a text.
#[verifier::external_type_specification]
#[verifier::external_body]
pub struct ExSemverError(semver::Error);

/// Whether `semver::VersionReq::parse` takes the text.
pub uninterp spec fn requirement_parses(text: Seq<char>) -> bool;

/// Whether `semver::Version::parse` takes the text.
pub uninterp spec fn version_parses(text: Seq<char>) -> bool;

/// Whether `semver::VersionReq::matches` finds that the version written as
/// `version` meets the requirement written as `requirement`.
pub uninterp spec fn requirement_admits(requirement: Seq<char>, version: Seq<char>) -> bool;

/// A version requirement together with the text it was read from.
pub struct Requirement {
    text: String,
    parsed: semver::VersionReq,
}

impl View for Requirement {
    type V = Seq<char>;

    /// The text that was read.
    closed spec fn view(&self) -> Seq<char> {
        self.text@
    }
}

/// A version together with the text it was read from.
pub struct BookVersion {
    text: String,
    parsed: semver::Version,
}

impl View for BookVersion {
    type V = Seq<char>;

    /// The text that was read.
    closed spec fn view(&self) -> Seq<char> {
        self.text@
    }
}

/// Calls `semver::VersionReq::parse`. It succeeds exactly on the texts that
/// `requirement_parses` names, and the result then keeps the text.
#[verifier::external_body]
fn parse_requirement(text: &str) -> (r: Result<Requirement, semver::Error>)
    ensures
        r is Ok <==> requirement_parses(text@),
        r matches Ok(q) ==> q@ == text@,
{
    semver::VersionReq::parse(text).map(|parsed| Requirement { text: text.to_string(), parsed })
}

/// Calls `semver::Version::parse`. It succeeds exactly on the texts that
/// `version_parses` names, and the result then keeps the text.
#[verifier::external_body]
fn parse_version(text: &str) -> (r: Result<BookVersion, semver::Error>)
    ensures
        r is Ok <==> version_parses(text@),
        r matches Ok(v) ==> v@ == text@,
{
    semver::Version::parse(text).map(|parsed| BookVersion { text: text.to_string(), parsed })
}

/// Calls `semver::VersionReq::matches`, whose answer `requirement_admits`
/// names.
#[verifier::external_body]
fn admits(requirement: &Requirement, version: &BookVersion) -> (ok: bool)
    ensures
        ok == requirement_admits(requirement@, version@),
{
    requirement.parsed.matches(&version.parsed)
}

/// How the version stands to the requirement. A requirement that is not
/// well formed is told first.
pub open spec fn version_match(requirement: Seq<char>, version: Seq<char>) -> VersionMatch {
    if !requirement_parses(requirement) {
        VersionMatch::InvalidRequirement
    } else if !version_parses(version) {
        VersionMatch::InvalidVersion
    } else {
        VersionMatch::Matches(requirement_admits(requirement, version))
    }
}

/// Reads the requirement and the version and tells how they stand.
pub fn match_version(requirement: &str, version: &str) -> (m: VersionMatch)
    ensures
        m == version_match(requirement@, version@),
{
    let wanted = match parse_requirement(requirement) {
        Ok(wanted) => wanted,
        Err(_) => {
            return VersionMatch::InvalidRequirement;
        },
    };
    let found = match parse_version(version) {
        Ok(found) => found,
        Err(_) => {
            return VersionMatch::InvalidVersion;
        },
    };
    VersionMatch::Matches(admits(&wanted, &found))
}

/// Why a version of `mdbook` cannot be worked with.
#[derive(Debug, Clone, Copy, PartialEq, Eq, Structural)]
pub enum VersionError {
    /// The range of supported versions is not well formed.
    InvalidRequirement,
    /// The version is not well formed.
    InvalidVersion,
    /// The version is not in the supported range.
    Incompatible,
}

/// Whether a version that stands to the supported range as `m` says can be
/// worked with.
pub fn judge_version(m: VersionMatch) -> (r: Result<(), VersionError>)
    ensures
        r == match m {
            VersionMatch::InvalidRequirement => Err::<(), VersionError>(
                VersionError::InvalidRequirement,
            ),
            VersionMatch::InvalidVersion => Err::<(), VersionError>(VersionError::InvalidVersion),
            VersionMatch::Matches(true) => Ok::<(), VersionError>(()),
            VersionMatch::Matches(false) => Err::<(), VersionError>(VersionError::Incompatible),
        },
{
    match m {
        VersionMatch::InvalidRequirement => Err(VersionError::InvalidRequirement),
        VersionMatch::InvalidVersion => Err(VersionError::InvalidVersion),
        VersionMatch::Matches(true) => Ok(()),
        VersionMatch::Matches(false) => Err(VersionError::Incompatible),
    }
}

/// Check whether this library is compatible with the provided version string.
pub fn version_check(version: &str) -> (r: Result<(), VersionError>)
    ensures
        r == match version_match(COMPATIBLE_MDBOOK_VERSIONS@, version@) {
            VersionMatch::InvalidRequirement => Err::<(), VersionError>(
                VersionError::InvalidRequirement,
            ),
            VersionMatch::InvalidVersion => Err::<(), VersionError>(VersionError::InvalidVersion),
            VersionMatch::Matches(true) => Ok::<(), VersionError>(()),
            VersionMatch::Matches(false) => Err::<(), VersionError>(VersionError::Incompatible),
        },
{
    judge_version(match_version(COMPATIBLE_MDBOOK_VERSIONS, version))
}

/// Whether the file `name` is among the selected ones. Without a selection
/// every file is.
pub open spec fn is_selected(selected: Option<Vec<String>>, name: Seq<char>) -> bool {
    match selected {
        Some(list) => strings_view(list@).contains(name),
        None => true,
    }
}

/// The chapters that are documents to check: those that have a path and are
/// selected, in their order.
pub open spec fn loaded(chapters: Seq<(Option<String>, String)>, selected: Option<Vec<String>>) -> Seq<
    (Seq<char>, Seq<char>),
>
    decreases chapters.len(),
{
    if chapters.len() == 0 {
        Seq::empty()
    } else {
        let front = loaded(chapters.drop_last(), selected);
        match chapters.last().0 {
            Some(path) => if is_selected(selected, path@) {
                front.push((path@, chapters.last().1@))
            } else {
                front
            },
            None => front,
        }
    }
}

/// The documents as pairs of path and text.
pub open spec fn documents_view(files: Seq<Document>) -> Seq<(Seq<char>, Seq<char>)> {
    files.map_values(|d: Document| (d.path@, d.text@))
}

/// A helper for reading the chapters of a book into memory. A chapter is
/// given as its path, if it has one, and its text. If `selected_files` is
/// there, only the chapters it names are read. The place of a document in
/// the result is the number that its links name it by.
pub fn load_files_into_memory(
    chapters: Vec<(Option<String>, String)>,
    selected_files: &Option<Vec<String>>,
) -> (files: Vec<Document>)
    ensures
        documents_view(files@) == loaded(chapters@, *selected_files),
{
    let mut files: Vec<Document> = Vec::new();
    let mut i: usize = 0;
    while i < chapters.len()
        invariant
            i <= chapters.len(),
            documents_view(files@) == loaded(chapters@.take(i as int), *selected_files),
        decreases chapters.len() - i,
    {
        proof {
            assert(chapters@.take(i + 1).drop_last() =~= chapters@.take(i as int));
        }
        match &chapters[i].0 {
            Some(path) => {
                let wanted = match selected_files {
                    Some(list) => contains_text(list, path),
                    None => true,
                };
                if wanted {
                    files.push(Document { path: path.clone(), text: chapters[i].1.clone() });
                }
            },
            None => {},
        }
        i += 1;
    }
    assert(chapters@.take(chapters@.len() as int) =~= chapters@);
    files
}

} // verus!
