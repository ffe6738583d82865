//! The options of a link check, and the extra HTTP headers with their
//! references to environment variables.

use crate::hashed_regex::{regex_is_match, HashedRegex};
use crate::text::{append_chars, chars_of, copy_subrange, string_of};
use vstd::prelude::*;

verus! {

/// The number of seconds a cached result is valid for, unless configured:
/// twelve hours.
pub const DEFAULT_CACHE_TIMEOUT: u64 = 43200;

/// The user agent that requests carry, unless configured.
pub const DEFAULT_USER_AGENT: &'static str = "mdbook-linkcheck-0.7.7";

/// How should warnings be treated?
#[derive(Debug, Copy, Clone, PartialEq, Eq, Structural)]
pub enum WarningPolicy {
    /// Silently ignore them.
    Ignore,
    /// Warn the user, but don't fail the run.
    Warn,
    /// Treat warnings as errors.
    Error,
}

/// The level at which a message is logged.
#[derive(Debug, Copy, Clone, PartialEq, Eq, Structural)]
pub enum LogLevel {
    /// A failure.
    Error,
    /// Something the user should look at.
    Warn,
    /// Detail for the curious.
    Debug,
}

impl WarningPolicy {
    /// The level at which a finding under this policy is logged.
    pub fn to_log_level(self) -> (level: LogLevel)
        ensures
            level == match self {
                WarningPolicy::Error => LogLevel::Error,
                WarningPolicy::Warn => LogLevel::Warn,
                WarningPolicy::Ignore => LogLevel::Debug,
            },
    {
        match self {
            WarningPolicy::Error => LogLevel::Error,
            WarningPolicy::Warn => LogLevel::Warn,
            WarningPolicy::Ignore => LogLevel::Debug,
        }
    }
}

impl Default for WarningPolicy {
    fn default() -> (policy: WarningPolicy)
        ensures
            policy == WarningPolicy::Warn,
    {
        WarningPolicy::Warn
    }
}

/// The header name that `http::header::HeaderName::from_str` makes of the
/// text, in its normal form, or `None` where it refuses the text.
pub uninterp spec fn header_name_of(name: Seq<char>) -> Option<Seq<char>>;

/// Whether a character may stand in the value of a header: the tabulator,
/// and every character from the space on but for the one with the number
/// 127.
pub open spec fn header_value_char(c: char) -> bool {
    (c as u32 >= 32 && c as u32 != 127) || c == '\t'
}

/// Whether the text may be the value of a header.
pub open spec fn valid_header_value(value: Seq<char>) -> bool {
    forall|i: int| 0 <= i < value.len() ==> header_value_char(#[trigger] value[i])
}

/// Calls `http::header::HeaderName::from_str` and hands out the name's text,
/// which `header_name_of` names.
#[verifier::external_body]
fn normalize_header_name(name: &str) -> (r: Option<String>)
    ensures
        match header_name_of(name@) {
            Some(n) => r matches Some(s) && s@ == n,
            None => r is None,
        },
{
    name.parse::<http::header::HeaderName>().ok().map(|n| n.as_str().to_string())
}

/// Calls `http::header::HeaderValue::from_str` and tells whether it took
/// the text. It refuses a text exactly for a byte below 32 other than the
/// tabulator, or the byte 127; the bytes of a character above 127 are all
/// above 127.
#[verifier::external_body]
fn header_value_ok(value: &str) -> (ok: bool)
    ensures
        ok == valid_header_value(value@),
{
    http::header::HeaderValue::from_str(value).is_ok()
}

/// An extra header for the requests to some sites. The value may refer to
/// environment variables.
#[derive(Debug)]
pub struct HttpHeader {
    /// The header's name, in its normal form.
    pub name: String,
    /// The header's value as it was configured.
    pub value: String,
}

impl View for HttpHeader {
    type V = (Seq<char>, Seq<char>);

    open spec fn view(&self) -> (Seq<char>, Seq<char>) {
        (self.name@, self.value@)
    }
}

/// Why a text is no header.
#[derive(Debug, Copy, Clone, PartialEq, Eq, Structural)]
pub enum HeaderError {
    /// The text is not of the form `key: value`.
    NotKeyValue,
    /// The key is no header name.
    InvalidName,
}

/// The first position at or behind `from` at which `: ` stands in `s`.
pub open spec fn find_separator(s: Seq<char>, from: int) -> Option<int>
    decreases s.len() - from,
{
    if from < 0 || from + 1 >= s.len() {
        None
    } else if s[from] == ':' && s[from + 1] == ' ' {
        Some(from)
    } else {
        find_separator(s, from + 1)
    }
}

/// The key and the value of the text `key: value`, as they are written.
pub open spec fn split_header_spec(s: Seq<char>) -> Option<(Seq<char>, Seq<char>)> {
    match find_separator(s, 0) {
        None => None,
        Some(idx) => Some((s.subrange(0, idx), s.subrange(idx + 2, s.len() as int))),
    }
}

/// The header that the text `key: value` stands for.
pub open spec fn parse_header_spec(s: Seq<char>) -> Result<(Seq<char>, Seq<char>), HeaderError> {
    match split_header_spec(s) {
        None => Err(HeaderError::NotKeyValue),
        Some((key, value)) => match header_name_of(key) {
            None => Err(HeaderError::InvalidName),
            Some(name) => Ok((name, value)),
        },
    }
}

/// Whether a character may stand in the name of an environment variable.
pub open spec fn is_ident(c: char) -> bool {
    ('a' <= c && c <= 'z') || ('A' <= c && c <= 'Z') || ('0' <= c && c <= '9') || c == '_'
}

/// The number of name characters that stand in `s` from `from` on.
pub open spec fn ident_run(s: Seq<char>, from: int) -> nat
    decreases s.len() - from,
{
    if 0 <= from < s.len() && is_ident(s[from]) {
        1 + ident_run(s, from + 1)
    } else {
        0
    }
}

/// A run of name characters ends within the text.
pub proof fn lemma_ident_run_bound(s: Seq<char>, from: int)
    requires
        0 <= from <= s.len(),
    ensures
        from + ident_run(s, from) <= s.len(),
    decreases s.len() - from,
{
    if from < s.len() && is_ident(s[from]) {
        lemma_ident_run_bound(s, from + 1);
    }
}

/// The position behind the reference that the `$` at `at` starts: the
/// name characters that follow the `$` belong to it.
pub open spec fn reference_end(s: Seq<char>, at: int) -> int {
    at + 1 + ident_run(s, at + 1)
}

/// The name of the variable that the `$` at `at` refers to: the name
/// characters that follow the `$`, up to the first character that is none.
pub open spec fn reference_name(s: Seq<char>, at: int) -> Seq<char> {
    s.subrange(at + 1, reference_end(s, at))
}

/// The value of the first variable of that name.
pub open spec fn lookup(env: Seq<(Seq<char>, Seq<char>)>, name: Seq<char>) -> Option<Seq<char>>
    decreases env.len(),
{
    if env.len() == 0 {
        None
    } else if env[0].0 == name {
        Some(env[0].1)
    } else {
        lookup(env.skip(1), name)
    }
}

/// `head` in front of what `tail` holds, if it holds a text.
pub open spec fn prepend(head: Seq<char>, tail: Result<Seq<char>, Seq<char>>) -> Result<
    Seq<char>,
    Seq<char>,
> {
    match tail {
        Ok(t) => Ok(head + t),
        Err(e) => Err(e),
    }
}

/// The text `s` from `at` on with its references replaced by the variables'
/// values, or the name of the first variable that is not there.
/// `\$` and `\\` stand for `$` and `\`; any other `\` stands for itself.
/// `escaped` tells that a `\` stands right in front of `at`.
pub open spec fn expand(s: Seq<char>, env: Seq<(Seq<char>, Seq<char>)>, at: int, escaped: bool)
    -> Result<Seq<char>, Seq<char>>
    decreases s.len() - at,
{
    if at < 0 || at >= s.len() {
        Ok(
            if escaped {
                seq!['\\']
            } else {
                Seq::empty()
            },
        )
    } else if escaped {
        if s[at] == '$' || s[at] == '\\' {
            prepend(seq![s[at]], expand(s, env, at + 1, false))
        } else {
            prepend(seq!['\\', s[at]], expand(s, env, at + 1, false))
        }
    } else if s[at] == '\\' {
        expand(s, env, at + 1, true)
    } else if s[at] == '$' {
        proof {
            lemma_ident_run_bound(s, at + 1);
        }
        match lookup(env, reference_name(s, at)) {
            None => Err(reference_name(s, at)),
            Some(value) => prepend(value, expand(s, env, reference_end(s, at), false)),
        }
    } else {
        prepend(seq![s[at]], expand(s, env, at + 1, false))
    }
}

/// Why the value of a header could not be made.
#[derive(Debug)]
pub enum InterpolationError {
    /// The environment has no variable of this name.
    MissingVariable(String),
    /// The text with the variables' values in it is no header value.
    InvalidValue,
}

/// What an [`InterpolationError`] says.
pub enum InterpolationFailure {
    /// The environment has no variable of this name.
    MissingVariable(Seq<char>),
    /// The text with the variables' values in it is no header value.
    InvalidValue,
}

impl View for InterpolationError {
    type V = InterpolationFailure;

    open spec fn view(&self) -> InterpolationFailure {
        match self {
            InterpolationError::MissingVariable(name) => InterpolationFailure::MissingVariable(
                name@,
            ),
            InterpolationError::InvalidValue => InterpolationFailure::InvalidValue,
        }
    }
}

/// The header value that `value` stands for in the environment `env`.
pub open spec fn interpolate_spec(value: Seq<char>, env: Seq<(Seq<char>, Seq<char>)>) -> Result<
    Seq<char>,
    InterpolationFailure,
> {
    match expand(value, env, 0, false) {
        Err(name) => Err(InterpolationFailure::MissingVariable(name)),
        Ok(text) => if valid_header_value(text) {
            Ok(text)
        } else {
            Err(InterpolationFailure::InvalidValue)
        },
    }
}

/// Pairs of texts.
pub open spec fn pairs_view(pairs: Seq<(String, String)>) -> Seq<(Seq<char>, Seq<char>)> {
    pairs.map_values(|p: (String, String)| (p.0@, p.1@))
}

/// Putting two texts in front, one after the other, is putting their
/// concatenation in front.
pub proof fn lemma_prepend_twice(a: Seq<char>, b: Seq<char>, tail: Result<Seq<char>, Seq<char>>)
    ensures
        prepend(a, prepend(b, tail)) == prepend(a + b, tail),
{
    match tail {
        Ok(t) => {
            assert(a + (b + t) =~= (a + b) + t);
        },
        Err(_) => {},
    }
}

/// The value of the first variable called `name`, if there is one.
pub fn lookup_variable<'a>(env: &'a Vec<(String, String)>, name: &String) -> (r: Option<&'a String>)
    ensures
        match lookup(pairs_view(env@), name@) {
            Some(v) => r matches Some(s) && s@ == v,
            None => r is None,
        },
{
    let ghost e = pairs_view(env@);
    let mut i: usize = 0;
    assert(e.skip(0) =~= e);
    while i < env.len()
        invariant
            i <= env.len(),
            e == pairs_view(env@),
            lookup(e, name@) == lookup(e.skip(i as int), name@),
        decreases env.len() - i,
    {
        proof {
            assert(e.skip(i as int).skip(1) =~= e.skip(i + 1));
        }
        if env[i].0 == *name {
            return Some(&env[i].1);
        }
        i += 1;
    }
    None
}

/// Replaces the references to environment variables in `value` by the values
/// that `env` gives them, and checks that the result can be sent as the
/// value of a header.
pub fn interpolate_env(value: &str, env: &Vec<(String, String)>) -> (r: Result<
    String,
    InterpolationError,
>)
    ensures
        match interpolate_spec(value@, pairs_view(env@)) {
            Ok(text) => r matches Ok(s) && s@ == text,
            Err(failure) => r matches Err(e) && e@ == failure,
        },
{
    let s = chars_of(value);
    let ghost e = pairs_view(env@);
    let mut res: Vec<char> = Vec::new();
    let mut escaped = false;
    let mut i: usize = 0;
    while i < s.len()
        invariant
            i <= s.len(),
            s@ == value@,
            e == pairs_view(env@),
            expand(s@, e, 0, false) == prepend(res@, expand(s@, e, i as int, escaped)),
        decreases s.len() - i,
    {
        let c = s[i];
        let ghost rest = expand(s@, e, i + 1, false);
        if escaped {
            if c == '$' || c == '\\' {
                proof {
                    lemma_prepend_twice(res@, seq![c], rest);
                    assert(res@ + seq![c] =~= res@.push(c));
                }
                res.push(c);
            } else {
                proof {
                    lemma_prepend_twice(res@, seq!['\\', c], rest);
                    assert(res@ + seq!['\\', c] =~= res@.push('\\').push(c));
                }
                res.push('\\');
                res.push(c);
            }
            escaped = false;
            i += 1;
        } else if c == '\\' {
            escaped = true;
            i += 1;
        } else if c == '$' {
            let mut end: usize = i + 1;
            while end < s.len() && is_ident_char(s[end])
                invariant
                    i + 1 <= end <= s.len(),
                    ident_run(s@, i + 1) == (end - (i + 1)) + ident_run(s@, end as int),
                decreases s.len() - end,
            {
                end += 1;
            }
            let name = string_of(&copy_subrange(&s, i + 1, end));
            match lookup_variable(env, &name) {
                None => {
                    return Err(InterpolationError::MissingVariable(name));
                },
                Some(found) => {
                    let found_chars = chars_of(found.as_str());
                    proof {
                        lemma_prepend_twice(res@, found_chars@, expand(s@, e, end as int, false));
                    }
                    append_chars(&mut res, &found_chars);
                },
            }
            i = end;
        } else {
            proof {
                lemma_prepend_twice(res@, seq![c], rest);
                assert(res@ + seq![c] =~= res@.push(c));
            }
            res.push(c);
            i += 1;
        }
    }
    let ghost before = res@;
    if escaped {
        res.push('\\');
    }
    proof {
        if escaped {
            assert(before + seq!['\\'] =~= res@);
        }
    }
    let text = string_of(&res);
    if header_value_ok(text.as_str()) {
        Ok(text)
    } else {
        Err(InterpolationError::InvalidValue)
    }
}

/// Whether a character may stand in the name of an environment variable.
pub fn is_ident_char(c: char) -> (r: bool)
    ensures
        r == is_ident(c),
{
    ('a' <= c && c <= 'z') || ('A' <= c && c <= 'Z') || ('0' <= c && c <= '9') || c == '_'
}

/// Splits a text of the form `key: value` at its first `: `.
pub fn split_header(s: &str) -> (r: Option<(String, String)>)
    ensures
        match split_header_spec(s@) {
            Some((key, value)) => r matches Some(p) && p.0@ == key && p.1@ == value,
            None => r is None,
        },
{
    let chars = chars_of(s);
    if chars.len() < 2 {
        return None;
    }
    let mut idx: usize = 0;
    while idx < chars.len() - 1 && !(chars[idx] == ':' && chars[idx + 1] == ' ')
        invariant
            idx < chars.len(),
            find_separator(chars@, 0) == find_separator(chars@, idx as int),
        decreases chars.len() - idx,
    {
        idx += 1;
    }
    if idx >= chars.len() - 1 {
        return None;
    }
    let key = string_of(&copy_subrange(&chars, 0, idx));
    let value = string_of(&copy_subrange(&chars, idx + 2, chars.len()));
    Some((key, value))
}

impl HttpHeader {
    /// Reads a header of the form `key: value`. The key ends at the first
    /// `: ` of the text.
    pub fn from_str(s: &str) -> (r: Result<HttpHeader, HeaderError>)
        ensures
            match parse_header_spec(s@) {
                Ok(header) => r matches Ok(h) && h@ == header,
                Err(e) => r matches Err(x) && x == e,
            },
    {
        match split_header(s) {
            None => Err(HeaderError::NotKeyValue),
            Some((key, value)) => match normalize_header_name(key.as_str()) {
                None => Err(HeaderError::InvalidName),
                Some(name) => Ok(HttpHeader { name, value }),
            },
        }
    }

    /// The value of the header with the environment variables' values in it.
    pub fn interpolate(&self, env: &Vec<(String, String)>) -> (r: Result<
        String,
        InterpolationError,
    >)
        ensures
            match interpolate_spec(self.value@, pairs_view(env@)) {
                Ok(text) => r matches Ok(s) && s@ == text,
                Err(failure) => r matches Err(e) && e@ == failure,
            },
    {
        interpolate_env(self.value.as_str(), env)
    }

    /// The header as `key: value`, as it was configured.
    pub fn to_string(&self) -> (s: String)
        ensures
            s@ == self.name@ + seq![':', ' '] + self.value@,
    {
        let mut out = chars_of(self.name.as_str());
        out.push(':');
        out.push(' ');
        let value = chars_of(self.value.as_str());
        append_chars(&mut out, &value);
        string_of(&out)
    }
}

/// The configuration options.
#[derive(Debug)]
pub struct Config {
    /// If a link on the internet is encountered, should we still try to check
    /// if it's valid?
    pub follow_web_links: bool,
    /// Are we allowed to link to files outside of the book's source directory?
    pub traverse_parent_directories: bool,
    /// Are symbolic links followed?
    pub follow_symlinks: bool,
    /// Patterns of the links that are skipped.
    pub exclude: Vec<HashedRegex>,
    /// The user agent used whenever any web requests are made.
    pub user_agent: String,
    /// The number of seconds a cached result is valid for.
    pub cache_timeout: u64,
    /// The policy to use when warnings are encountered.
    pub warning_policy: WarningPolicy,
    /// Patterns of web sites, each with the headers that are sent to the
    /// sites it matches.
    pub http_headers: Vec<(HashedRegex, Vec<HttpHeader>)>,
    /// Is mathematical notation cut out of a document before it is scanned?
    pub latex_support: bool,
}

/// The pattern texts.
pub open spec fn patterns(list: Seq<HashedRegex>) -> Seq<Seq<char>> {
    list.map_values(|re: HashedRegex| re@)
}

/// Whether one of the patterns matches the text.
pub open spec fn any_matches(patterns: Seq<Seq<char>>, text: Seq<char>) -> bool {
    exists|i: int| 0 <= i < patterns.len() && regex_is_match(#[trigger] patterns[i], text)
}

/// The headers as pairs of name and value.
pub open spec fn headers_view(headers: Seq<HttpHeader>) -> Seq<(Seq<char>, Seq<char>)> {
    headers.map_values(|h: HttpHeader| h@)
}

/// The headers whose value can be made in the environment `env`, each with
/// that value. The others are left out.
pub open spec fn interpolated(
    headers: Seq<(Seq<char>, Seq<char>)>,
    env: Seq<(Seq<char>, Seq<char>)>,
) -> Seq<(Seq<char>, Seq<char>)>
    decreases headers.len(),
{
    if headers.len() == 0 {
        Seq::empty()
    } else {
        let front = interpolated(headers.drop_last(), env);
        match interpolate_spec(headers.last().1, env) {
            Ok(value) => front.push((headers.last().0, value)),
            Err(_) => front,
        }
    }
}

/// The number of seconds a cached result is valid for, unless configured.
pub fn default_cache_timeout() -> (seconds: u64)
    ensures
        seconds == DEFAULT_CACHE_TIMEOUT,
{
    DEFAULT_CACHE_TIMEOUT
}

/// The user agent that requests carry, unless configured.
pub fn default_user_agent() -> (agent: String)
    ensures
        agent@ == DEFAULT_USER_AGENT@,
{
    DEFAULT_USER_AGENT.to_owned()
}

impl Config {
    /// Checks the `exclude` patterns to see if the provided link should be
    /// skipped.
    pub fn should_skip(&self, link: &str) -> (skip: bool)
        ensures
            skip == any_matches(patterns(self.exclude@), link@),
    {
        let ghost pats = patterns(self.exclude@);
        let mut i: usize = 0;
        while i < self.exclude.len()
            invariant
                i <= self.exclude.len(),
                pats == patterns(self.exclude@),
                forall|k: int| 0 <= k < i ==> !regex_is_match(#[trigger] pats[k], link@),
            decreases self.exclude.len() - i,
        {
            if self.exclude[i].is_match(link) {
                assert(regex_is_match(pats[i as int], link@));
                return true;
            }
            i += 1;
        }
        false
    }

    /// For each pattern of `http_headers`, in their order, the headers whose
    /// value could be made, each with its value. A header whose value could
    /// not be made is left out.
    pub fn interpolate_headers(&self, env: &Vec<(String, String)>) -> (all: Vec<
        Vec<(String, String)>,
    >)
        ensures
            all@.len() == self.http_headers@.len(),
            forall|i: int|
                0 <= i < all@.len() ==> pairs_view((#[trigger] all@[i])@) == interpolated(
                    headers_view(self.http_headers@[i].1@),
                    pairs_view(env@),
                ),
    {
        let mut all: Vec<Vec<(String, String)>> = Vec::new();
        let mut i: usize = 0;
        while i < self.http_headers.len()
            invariant
                i <= self.http_headers.len(),
                all@.len() == i,
                forall|k: int|
                    0 <= k < i ==> pairs_view((#[trigger] all@[k])@) == interpolated(
                        headers_view(self.http_headers@[k].1@),
                        pairs_view(env@),
                    ),
            decreases self.http_headers.len() - i,
        {
            let headers = &self.http_headers[i].1;
            let ghost hv = headers_view(headers@);
            let mut made: Vec<(String, String)> = Vec::new();
            let mut k: usize = 0;
            while k < headers.len()
                invariant
                    k <= headers.len(),
                    hv == headers_view(headers@),
                    pairs_view(made@) == interpolated(hv.take(k as int), pairs_view(env@)),
                decreases headers.len() - k,
            {
                let header = &headers[k];
                proof {
                    assert(hv.take(k + 1).drop_last() =~= hv.take(k as int));
                }
                match header.interpolate(env) {
                    Ok(value) => {
                        let name = header.name.clone();
                        made.push((name, value));
                    },
                    Err(_) => {},
                }
                k += 1;
            }
            assert(hv.take(hv.len() as int) =~= hv);
            all.push(made);
            i += 1;
        }
        all
    }
}

impl Default for Config {
    fn default() -> (cfg: Config)
        ensures
            !cfg.follow_web_links,
            !cfg.traverse_parent_directories,
            cfg.follow_symlinks,
            cfg.exclude@.len() == 0,
            cfg.user_agent@ == DEFAULT_USER_AGENT@,
            cfg.cache_timeout == DEFAULT_CACHE_TIMEOUT,
            cfg.warning_policy == WarningPolicy::Warn,
            cfg.http_headers@.len() == 0,
            !cfg.latex_support,
    {
        Config {
            follow_web_links: false,
            traverse_parent_directories: false,
            follow_symlinks: true,
            exclude: Vec::new(),
            user_agent: default_user_agent(),
            cache_timeout: DEFAULT_CACHE_TIMEOUT,
            warning_policy: WarningPolicy::Warn,
            http_headers: Vec::new(),
            latex_support: false,
        }
    }
}

} // verus!
