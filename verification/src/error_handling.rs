//! Turning what the checks found into reports for the user.

use crate::config::WarningPolicy;
use crate::links::{IncompleteLink, Link, Span};
use crate::paths::{relative_path_spec, relative_path_to_file};
use crate::text::{append_chars, decimal, decimal_chars, push_str, string_of};
use crate::validation::{InvalidLink, NotInSummary, Reason, ReasonView};
use vstd::prelude::*;

verus! {

/// Why absolute links are reported.
pub const ABSOLUTE_LINK_WARNING_REASONING: &'static str =
    "When viewing a document directly from the file system and click on an\nabsolute link (e.g. `/index.md`), the browser will try to navigate to\n`/index.md` on the current file system (i.e. the `index.md` file inside\n`/` or `C:\\`) instead of the `index.md` file at book's base directory as\nintended.\n\nThis warning helps avoid the situation where everything will seem to work\nfine when viewed using a web server (e.g. GitHub Pages or `mdbook serve`),\nbut users viewing the book from the file system may encounter broken links.\n\nTo ignore this warning, you can edit `book.toml` and set the warning policy to\n\"ignore\".\n\n    [output.linkcheck]\n    warning-policy = \"ignore\"\n\nFor more details, see https://github.com/Michael-F-Bryan/mdbook-linkcheck/issues/33\n";

/// How serious a report is.
#[derive(Debug, Clone, Copy, PartialEq, Eq, Structural)]
pub enum Severity {
    /// Something the user should look at.
    Warning,
    /// Something that fails the run.
    Error,
}

/// The place that a report points at, with what is said of it.
#[derive(Debug, Clone, PartialEq, Eq)]
pub struct Label {
    /// The document.
    pub file: usize,
    /// The place in the text of the document.
    pub span: Span,
    /// What is said of the place.
    pub message: String,
}

/// A report for the user.
#[derive(Debug, Clone, PartialEq, Eq)]
pub struct Diagnostic {
    /// How serious the report is.
    pub severity: Severity,
    /// The headline.
    pub message: String,
    /// The place the report points at.
    pub label: Label,
    /// Further remarks.
    pub notes: Vec<String>,
}

/// What a [`Diagnostic`] holds.
pub struct DiagnosticView {
    /// How serious the report is.
    pub severity: Severity,
    /// The headline.
    pub message: Seq<char>,
    /// The document.
    pub file: usize,
    /// The place in the text of the document.
    pub span: Span,
    /// What is said of the place.
    pub label: Seq<char>,
    /// Further remarks.
    pub notes: Seq<Seq<char>>,
}

impl View for Diagnostic {
    type V = DiagnosticView;

    open spec fn view(&self) -> DiagnosticView {
        DiagnosticView {
            severity: self.severity,
            message: self.message@,
            file: self.label.file,
            span: self.label.span,
            label: self.label.message@,
            notes: self.notes@.map_values(|n: String| n@),
        }
    }
}

/// The reason phrase that `http::StatusCode::canonical_reason` has for the
/// status with the number `code`, if it has one.
pub uninterp spec fn canonical_reason_of(code: u16) -> Option<Seq<char>>;

/// Whether the number is one of a status: it has three digits.
pub open spec fn is_status(code: u16) -> bool {
    100 <= code < 1000
}

/// Calls `http::StatusCode::canonical_reason` on the status with the number
/// `code` and hands out the phrase, which `canonical_reason_of` names. The
/// number is one that `http::StatusCode::from_u16` takes.
#[verifier::external_body]
fn canonical_reason(code: u16) -> (phrase: Option<String>)
    requires
        is_status(code),
    ensures
        match canonical_reason_of(code) {
            Some(p) => phrase matches Some(s) && s@ == p,
            None => phrase is None,
        },
{
    match http::StatusCode::from_u16(code) {
        Ok(status) => status.canonical_reason().map(String::from),
        Err(_) => None,
    }
}

/// What is said of an invalid link, as specific as the reason allows.
/// `phrase` is the reason phrase of the status, if the reason is a status
/// that has one.
pub open spec fn error_message_spec(href: Seq<char>, reason: ReasonView, phrase: Option<Seq<char>>)
    -> Seq<char> {
    match reason {
        ReasonView::FileNotFound => "File not found: "@ + href,
        ReasonView::TraversesRestrictedDirectory =>
            "Linking outside of the \"root\" directory is forbidden"@,
        ReasonView::NotRegisteredInTableOfContents(path) => NotInSummary::message_spec(path),
        ReasonView::RemoteStatus(code, url) => match phrase {
            Some(p) => "Server returned "@ + decimal(code as nat) + " "@ + p + " for "@ + url,
            None => "Server returned "@ + decimal(code as nat) + " for "@ + url,
        },
        ReasonView::RemoteTransportError(message) => message,
        ReasonView::CustomPolicyViolation(message) => message,
    }
}

/// The reason phrase that belongs to the reason.
pub open spec fn phrase_of(reason: ReasonView) -> Option<Seq<char>> {
    match reason {
        ReasonView::RemoteStatus(code, _) => if is_status(code) {
            canonical_reason_of(code)
        } else {
            None
        },
        _ => None,
    }
}

/// What is said of an invalid link, given the reason phrase of its status.
pub fn error_message_with(link: &InvalidLink, phrase: Option<String>) -> (message: String)
    ensures
        message@ == error_message_spec(
            link.link.href@,
            link.reason@,
            match phrase {
                Some(p) => Some(p@),
                None => None,
            },
        ),
{
    let mut out: Vec<char> = Vec::new();
    match &link.reason {
        Reason::FileNotFound => {
            push_str(&mut out, "File not found: ");
            push_str(&mut out, link.link.href.as_str());
        },
        Reason::TraversesRestrictedDirectory => {
            push_str(&mut out, "Linking outside of the \"root\" directory is forbidden");
        },
        Reason::NotRegisteredInTableOfContents(e) => {
            return e.message();
        },
        Reason::RemoteStatus(code, url) => {
            push_str(&mut out, "Server returned ");
            let digits = decimal_chars(*code as u64);
            append_chars(&mut out, &digits);
            match phrase {
                Some(p) => {
                    push_str(&mut out, " ");
                    push_str(&mut out, p.as_str());
                },
                None => {},
            }
            push_str(&mut out, " for ");
            push_str(&mut out, url.as_str());
        },
        Reason::RemoteTransportError(message) => {
            return message.clone();
        },
        Reason::CustomPolicyViolation(message) => {
            return message.clone();
        },
    }
    string_of(&out)
}

/// What is said of an invalid link, as specific as the reason allows.
pub fn most_specific_error_message(link: &InvalidLink) -> (message: String)
    ensures
        message@ == error_message_spec(link.link.href@, link.reason@, phrase_of(link.reason@)),
{
    let phrase = match &link.reason {
        Reason::RemoteStatus(code, _) => if 100 <= *code && *code < 1000 {
            canonical_reason(*code)
        } else {
            None
        },
        _ => None,
    };
    error_message_with(link, phrase)
}

/// The severity of the findings that the policy governs, if they are
/// reported at all.
pub open spec fn severity_of(policy: WarningPolicy) -> Option<Severity> {
    match policy {
        WarningPolicy::Error => Some(Severity::Error),
        WarningPolicy::Warn => Some(Severity::Warning),
        WarningPolicy::Ignore => None,
    }
}

/// The report for an invalid link.
pub open spec fn invalid_diagnostic(link: InvalidLink) -> DiagnosticView {
    let message = error_message_spec(link.link.href@, link.reason@, phrase_of(link.reason@));
    DiagnosticView {
        severity: Severity::Error,
        message,
        file: link.link.file,
        span: link.link.span,
        label: message,
        notes: Seq::empty(),
    }
}

/// The report for an incomplete link.
pub open spec fn incomplete_diagnostic(severity: Severity, link: IncompleteLink) -> DiagnosticView {
    DiagnosticView {
        severity,
        message: "Potential incomplete link"@,
        file: link.file,
        span: link.span,
        label: "Did you forget to define a URL for `"@ + link.reference@ + "`?"@,
        notes: seq![
            "hint: declare the link's URL. For example: `["@ + link.reference@
                + "]: http://example.com/`"@,
        ],
    }
}

/// The remarks of the report for an absolute link: the reasoning, where it
/// is asked for, and the suggested relative link, where there is one.
pub open spec fn absolute_notes(href: Seq<char>, explain: bool, file_name: Seq<char>) -> Seq<Seq<char>> {
    let reasoning = if explain {
        seq![ABSOLUTE_LINK_WARNING_REASONING@]
    } else {
        Seq::empty()
    };
    match relative_path_spec(file_name, href) {
        Some(relative) => reasoning.push("Suggestion: change the link to \""@ + relative + "\""@),
        None => reasoning,
    }
}

/// The report for a valid link that starts at the root of the book.
pub open spec fn absolute_diagnostic(
    severity: Severity,
    link: Link,
    explain: bool,
    file_name: Seq<char>,
) -> DiagnosticView {
    DiagnosticView {
        severity,
        message: "Absolute link should be made relative"@,
        file: link.file,
        span: link.span,
        label: "Absolute link should be made relative"@,
        notes: absolute_notes(link.href@, explain, file_name),
    }
}

/// The policy used when emitting errors or warnings.
#[derive(Debug, Clone, Copy, PartialEq, Eq, Structural)]
pub struct ErrorHandling {
    /// How findings that are no broken links are treated.
    pub warning_policy: WarningPolicy,
}

impl ErrorHandling {
    /// The severity of the findings that the policy governs, if they are
    /// reported at all.
    pub fn severity(&self) -> (severity: Option<Severity>)
        ensures
            severity == severity_of(self.warning_policy),
    {
        match self.warning_policy {
            WarningPolicy::Error => Some(Severity::Error),
            WarningPolicy::Warn => Some(Severity::Warning),
            WarningPolicy::Ignore => None,
        }
    }

    /// The report for an incomplete link, unless such findings are ignored.
    pub fn on_incomplete_link(&self, link: &IncompleteLink) -> (report: Option<Diagnostic>)
        ensures
            match severity_of(self.warning_policy) {
                Some(severity) => report matches Some(d) && d@ == incomplete_diagnostic(
                    severity,
                    *link,
                ),
                None => report is None,
            },
    {
        let severity = match self.severity() {
            Some(severity) => severity,
            None => {
                return None;
            },
        };
        let mut label: Vec<char> = Vec::new();
        push_str(&mut label, "Did you forget to define a URL for `");
        push_str(&mut label, link.reference.as_str());
        push_str(&mut label, "`?");
        let mut note: Vec<char> = Vec::new();
        push_str(&mut note, "hint: declare the link's URL. For example: `[");
        push_str(&mut note, link.reference.as_str());
        push_str(&mut note, "]: http://example.com/`");
        let mut notes: Vec<String> = Vec::new();
        notes.push(string_of(&note));
        let report = Diagnostic {
            severity,
            message: "Potential incomplete link".to_owned(),
            label: Label { file: link.file, span: link.span, message: string_of(&label) },
            notes,
        };
        assert(report@.notes =~= incomplete_diagnostic(severity, *link).notes);
        Some(report)
    }

    /// The report for an invalid link: always an error.
    pub fn on_invalid_link(&self, broken: &InvalidLink) -> (report: Option<Diagnostic>)
        ensures
            report matches Some(d) && d@ == invalid_diagnostic(*broken),
    {
        let message = most_specific_error_message(broken);
        let report = Diagnostic {
            severity: Severity::Error,
            message: message.clone(),
            label: Label { file: broken.link.file, span: broken.link.span, message },
            notes: Vec::new(),
        };
        assert(report@.notes =~= Seq::<Seq<char>>::empty());
        Some(report)
    }

    /// The report for a valid link that starts at the root of the book,
    /// found in the document `file_name`, unless such findings are ignored.
    /// With `insert_explanatory_text` the report says why such links are
    /// reported.
    pub fn on_absolute_link(&self, link: &Link, insert_explanatory_text: bool, file_name: &str) -> (report:
        Option<Diagnostic>)
        ensures
            match severity_of(self.warning_policy) {
                Some(severity) => report matches Some(d) && d@ == absolute_diagnostic(
                    severity,
                    *link,
                    insert_explanatory_text,
                    file_name@,
                ),
                None => report is None,
            },
    {
        let severity = match self.severity() {
            Some(severity) => severity,
            None => {
                return None;
            },
        };
        let mut notes: Vec<String> = Vec::new();
        if insert_explanatory_text {
            notes.push(ABSOLUTE_LINK_WARNING_REASONING.to_owned());
        }
        match relative_path_to_file(file_name, link.href.as_str()) {
            Some(suggested_change) => {
                let mut note: Vec<char> = Vec::new();
                push_str(&mut note, "Suggestion: change the link to \"");
                push_str(&mut note, suggested_change.as_str());
                push_str(&mut note, "\"");
                notes.push(string_of(&note));
            },
            None => {},
        }
        let report = Diagnostic {
            severity,
            message: "Absolute link should be made relative".to_owned(),
            label: Label {
                file: link.file,
                span: link.span,
                message: "Absolute link should be made relative".to_owned(),
            },
            notes,
        };
        assert(report@.notes =~= absolute_notes(link.href@, insert_explanatory_text, file_name@));
        Some(report)
    }
}

impl Default for ErrorHandling {
    fn default() -> (handling: ErrorHandling)
        ensures
            handling.warning_policy == WarningPolicy::Warn,
    {
        ErrorHandling { warning_policy: WarningPolicy::Warn }
    }
}

/// The reports as what they hold.
pub open spec fn diagnostics_view(reports: Seq<Diagnostic>) -> Seq<DiagnosticView> {
    reports.map_values(|d: Diagnostic| d@)
}

/// Whether one of the reports is an error: the run has failed exactly then.
pub fn has_errors(reports: &Vec<Diagnostic>) -> (failed: bool)
    ensures
        failed == exists|i: int|
            0 <= i < reports@.len() && (#[trigger] reports@[i]).severity == Severity::Error,
{
    let mut i: usize = 0;
    while i < reports.len()
        invariant
            i <= reports.len(),
            forall|k: int| 0 <= k < i ==> (#[trigger] reports@[k]).severity != Severity::Error,
        decreases reports.len() - i,
    {
        match reports[i].severity {
            Severity::Error => {
                return true;
            },
            Severity::Warning => {},
        }
        i += 1;
    }
    false
}

} // verus!
