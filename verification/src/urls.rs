//! Absolute URLs, as far as link rendering reads them. Parsing and joining are
//! the work of the `url` crate; this module holds what comes back as plain
//! values.

use url::{ParseError, Url};
use vstd::prelude::*;

verus! {

/// The parts of a parsed absolute URL that link rendering reads.
pub struct ParsedUrl {
    /// The scheme, without the `:` that ends it.
    pub scheme: String,
    /// The host, where the URL has one.
    pub host: Option<String>,
    /// The path.
    pub path: String,
    /// The whole URL, as the parser serialises it.
    pub href: String,
}

/// The parts of a parsed absolute URL, as texts.
pub struct UrlParts {
    pub scheme: Seq<char>,
    pub host: Option<Seq<char>>,
    pub path: Seq<char>,
    pub href: Seq<char>,
}

/// Why a text is no absolute URL.
#[derive(Clone, Copy, PartialEq, Eq, Structural, Debug)]
pub enum ParseFailure {
    /// The text has no scheme: it is a relative reference, and there was no
    /// base to resolve it against.
    RelativeWithoutBase,
    /// The text has a scheme, but what follows it is malformed.
    Malformed,
}

impl View for ParsedUrl {
    type V = UrlParts;

    open spec fn view(&self) -> UrlParts {
        UrlParts {
            scheme: self.scheme@,
            host: match self.host {
                Some(h) => Some(h@),
                None => None,
            },
            path: self.path@,
            href: self.href@,
        }
    }
}

/// What `url::Url::parse` makes of a text: the parts of the URL, or why there
/// is none.
pub uninterp spec fn url_parse(input: Seq<char>) -> Result<UrlParts, ParseFailure>;

/// What `url::Url::join` makes of a reference `input` against the URL that
/// the text `base` parses to, serialised; `None` where either fails.
pub uninterp spec fn url_join(base: Seq<char>, input: Seq<char>) -> Option<Seq<char>>;

/// Parses `input` with `url::Url::parse` and copies out of the resulting
/// `Url` what `scheme()`, `host_str()`, `path()` and `as_str()` return. The
/// error `ParseError::RelativeUrlWithoutBase` is told apart from all others.
/// The contract claims only that the result is a function of `input`.
#[verifier::external_body]
pub(crate) fn parse_url(input: &str) -> (r: Result<ParsedUrl, ParseFailure>)
    ensures
        match r {
            Ok(u) => url_parse(input@) == Ok::<UrlParts, ParseFailure>(u@),
            Err(e) => url_parse(input@) == Err::<UrlParts, ParseFailure>(e),
        },
{
    match Url::parse(input) {
        Ok(u) => Ok(
            ParsedUrl {
                scheme: u.scheme().to_string(),
                host: u.host_str().map(str::to_string),
                path: u.path().to_string(),
                href: u.as_str().to_string(),
            },
        ),
        Err(ParseError::RelativeUrlWithoutBase) => Err(ParseFailure::RelativeWithoutBase),
        Err(_) => Err(ParseFailure::Malformed),
    }
}

/// Parses `base` with `url::Url::parse`, resolves `input` against it with
/// `url::Url::join`, and returns what `as_str()` gives for the result. The
/// contract claims only that the result is a function of the two texts.
#[verifier::external_body]
pub(crate) fn join_url(base: &str, input: &str) -> (r: Option<String>)
    ensures
        match r {
            Some(s) => url_join(base@, input@) == Some(s@),
            None => url_join(base@, input@) is None,
        },
{
    match Url::parse(base) {
        Ok(b) => match b.join(input) {
            Ok(u) => Some(u.as_str().to_string()),
            Err(_) => None,
        },
        Err(_) => None,
    }
}

} // verus!
