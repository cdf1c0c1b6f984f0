//! Absolute URLs of domains and discovered links.

use vstd::prelude::*;
use vstd::string::StringExecFns;

verus! {

/// What `url::Url::parse` makes of a string: on success its serialization and
/// its host when the host is a domain name.
pub uninterp spec fn url_parse_result(s: Seq<char>) -> Option<(Seq<char>, Option<Seq<char>>)>;

/// A parsed absolute URL: its serialization and its domain, if the host is one.
pub struct ParsedUrl {
    pub text: String,
    pub domain: Option<String>,
}

pub open spec fn parsed_view(p: ParsedUrl) -> (Seq<char>, Option<Seq<char>>) {
    (
        p.text@,
        match p.domain {
            Some(d) => Some(d@),
            None => None,
        },
    )
}

/// Relies on `url::Url::parse`, with `Url::as_str` and `Url::domain` read from its
/// result: the outcome depends on the string alone.
#[verifier::external_body]
pub(crate) fn parse_url_raw(s: &str) -> (r: Result<ParsedUrl, url::ParseError>)
    ensures
        match r {
            Ok(p) => url_parse_result(s@) == Some(parsed_view(p)),
            Err(_) => url_parse_result(s@) is None,
        },
{
    match url::Url::parse(s) {
        Ok(u) => Ok(ParsedUrl { text: u.as_str().to_string(), domain: u.domain().map(|d| d.to_string()) }),
        Err(e) => Err(e),
    }
}

/// The string that is parsed when `s` alone does not parse.
pub open spec fn with_https(s: Seq<char>) -> Seq<char> {
    "https://"@ + s
}

/// What `parse_url` makes of `s`: `s` as an absolute URL, else `https://` + `s`.
pub open spec fn normalized_url(s: Seq<char>) -> Option<(Seq<char>, Option<Seq<char>>)> {
    match url_parse_result(s) {
        Some(p) => Some(p),
        None => url_parse_result(with_https(s)),
    }
}

/// Parses `base` as an absolute URL; where that fails, parses `https://` + `base`.
pub fn parse_url(base: &str) -> (r: Result<ParsedUrl, url::ParseError>)
    ensures
        match r {
            Ok(p) => normalized_url(base@) == Some(parsed_view(p)),
            Err(_) => normalized_url(base@) is None,
        },
{
    match parse_url_raw(base) {
        Ok(p) => Ok(p),
        Err(_) => {
            let mut prefixed = String::from_str("https://");
            proof {
                reveal_strlit("https://");
            }
            prefixed.append(base);
            assert(prefixed@ == with_https(base@));
            parse_url_raw(prefixed.as_str())
        },
    }
}

} // verus!
