//! Errors of the store and of a crawl job.

use vstd::prelude::*;

verus! {

#[verifier::external_type_specification]
#[verifier::external_body]
pub struct ExParseError(url::ParseError);

/// A constraint of the store that a write would break.
#[derive(Debug, Clone, Copy, PartialEq, Eq, Structural)]
pub enum StoreError {
    /// No row has the given id.
    RowNotFound,
    /// A domain name or page URL that is already stored.
    UniqueViolation,
    /// A row refers to a domain id that is not stored.
    ForeignKeyViolation,
    /// A link from a domain to itself.
    SelfLink,
}

/// Why a crawl job failed.
#[derive(Debug)]
pub enum SearchError {
    Store(StoreError),
    /// A string that is not a URL, even with `https://` in front.
    URLError(url::ParseError),
    /// A URL whose host is not a domain name (an IP address, say).
    NoDomain,
}

pub type SearchResult<T> = Result<T, SearchError>;

} // verus!
