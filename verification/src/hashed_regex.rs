//! Regular expressions that are compared and hashed by their pattern text.

use vstd::prelude::*;
use vstd::utf8::encode_utf8;

verus! {

/// A compiled regular expression of the `regex` crate.
#[verifier::external_type_specification]
#[verifier::external_body]
pub struct ExRegex(regex::Regex);

/// The error with which the `regex` crate refuses a pattern.
#[verifier::external_type_specification]
#[verifier::external_body]
pub struct ExRegexError(regex::Error);

/// Whether `regex::Regex::new` accepts the pattern.
pub uninterp spec fn regex_compiles(pattern: Seq<char>) -> bool;

/// Whether `regex::Regex::find` finds a match of the pattern in the text.
pub uninterp spec fn regex_is_match(pattern: Seq<char>, text: Seq<char>) -> bool;

/// The byte ranges of the successive matches of the pattern that
/// `regex::Regex::captures_iter` yields for the text.
pub uninterp spec fn regex_spans(pattern: Seq<char>, text: Seq<char>) -> Seq<(usize, usize)>;

/// The text that `regex::Regex::replace_all` makes of `text`.
pub uninterp spec fn regex_replaced(
    pattern: Seq<char>,
    text: Seq<char>,
    replacement: Seq<char>,
) -> Seq<char>;

/// Whether the ranges lie within a text of `len` bytes, none of them
/// reversed, each ending at or before the start of the next.
pub open spec fn spans_in_order(spans: Seq<(usize, usize)>, len: int) -> bool {
    &&& forall|i: int| 0 <= i < spans.len() ==> (#[trigger] spans[i]).0 <= spans[i].1 <= len
    &&& forall|i: int, j: int|
        0 <= i < j < spans.len() ==> (#[trigger] spans[i]).1 <= (#[trigger] spans[j]).0
}

/// The bytes with each of the ranges replaced by `token`.
pub open spec fn spliced(bytes: Seq<u8>, spans: Seq<(usize, usize)>, token: Seq<u8>) -> Seq<u8>
    decreases spans.len(),
{
    if spans.len() == 0 {
        bytes
    } else {
        spliced(bytes.take(spans.last().0 as int), spans.drop_last(), token) + token + bytes.skip(
            spans.last().1 as int,
        )
    }
}

/// A pattern that is no regular expression.
#[derive(Debug, Clone)]
pub struct InvalidPattern {
    /// The text that was refused.
    pub pattern: String,
}

/// A regular expression together with the text it was compiled from.
/// Two of them are equal when their pattern texts are.
#[derive(Debug)]
pub struct HashedRegex {
    string: String,
    re: regex::Regex,
}

impl View for HashedRegex {
    type V = Seq<char>;

    /// The pattern text.
    closed spec fn view(&self) -> Seq<char> {
        self.string@
    }
}

impl HashedRegex {
    /// Calls `regex::Regex::new`. It succeeds exactly on the patterns that
    /// `regex_compiles` names, and the result then keeps the pattern text.
    #[verifier::external_body]
    fn compile(s: &str) -> (r: Result<HashedRegex, regex::Error>)
        ensures
            r is Ok <==> regex_compiles(s@),
            r matches Ok(h) ==> h@ == s@,
    {
        regex::Regex::new(s).map(|re| HashedRegex { string: s.to_string(), re })
    }

    /// Compiles the pattern `s`.
    pub fn new(s: &str) -> (r: Result<HashedRegex, InvalidPattern>)
        ensures
            r is Ok <==> regex_compiles(s@),
            r matches Ok(h) ==> h@ == s@,
            r matches Err(e) ==> e.pattern@ == s@,
    {
        match HashedRegex::compile(s) {
            Ok(h) => Ok(h),
            Err(_) => Err(InvalidPattern { pattern: s.to_owned() }),
        }
    }

    /// The pattern text.
    pub fn as_str(&self) -> (s: &str)
        ensures
            s@ == self@,
    {
        self.string.as_str()
    }

    /// Calls `regex::Regex::find` and tells whether it found a match, which
    /// is what `regex_is_match` names.
    #[verifier::external_body]
    pub(crate) fn is_match(&self, text: &str) -> (found: bool)
        ensures
            found == regex_is_match(self@, text@),
    {
        self.re.find(text).is_some()
    }

    /// Calls `regex::Regex::captures_iter` and takes the byte range of each
    /// overall match, in the order in which they come: what `regex_spans`
    /// names. The matches lie within the text, and none starts in front of
    /// the end of the one before it.
    #[verifier::external_body]
    pub(crate) fn match_spans(&self, text: &str) -> (spans: Vec<(usize, usize)>)
        ensures
            spans@ == regex_spans(self@, text@),
            spans_in_order(spans@, encode_utf8(text@).len() as int),
    {
        self.re.captures_iter(text).map(|c| c.get_match()).map(|m| (m.start(), m.end())).collect()
    }

    /// Calls `regex::Regex::replace_all`, whose result `regex_replaced`
    /// names. A text in which the pattern has no match comes back unchanged.
    /// A replacement without a `$` refers to no group of the match: it
    /// stands, as it is, in place of the bytes of every match.
    #[verifier::external_body]
    pub(crate) fn replace_all(&self, text: &str, replacement: &str) -> (out: String)
        ensures
            out@ == regex_replaced(self@, text@, replacement@),
            regex_spans(self@, text@).len() == 0 ==> out@ == text@,
            !replacement@.contains('$') ==> encode_utf8(out@) == spliced(
                encode_utf8(text@),
                regex_spans(self@, text@),
                encode_utf8(replacement@),
            ),
    {
        self.re.replace_all(text, replacement).to_string()
    }

    /// Whether the pattern matches somewhere in `text`.
    pub fn matches(&self, text: &str) -> (found: bool)
        ensures
            found == regex_is_match(self@, text@),
    {
        self.is_match(text)
    }
}

impl PartialEq for HashedRegex {
    fn eq(&self, other: &Self) -> (r: bool) {
        self.string == other.string
    }
}

impl vstd::std_specs::cmp::PartialEqSpecImpl for HashedRegex {
    open spec fn obeys_eq_spec() -> bool {
        true
    }

    open spec fn eq_spec(&self, other: &Self) -> bool {
        self@ == other@
    }
}

impl Eq for HashedRegex {

}

} // verus!
