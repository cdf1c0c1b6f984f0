//! Rows of the three tables: domains, website pages and domain links.
//! Timestamps are microseconds since the Unix epoch.

use vstd::prelude::*;

verus! {

/// A known domain. `indexed_at` is `None` while the domain awaits a crawl.
#[derive(Debug)]
pub struct Domain {
    pub id: usize,
    pub domain: String,
    pub indexed_at: Option<i64>,
    pub added_at: i64,
}

pub struct DomainView {
    pub id: usize,
    pub name: Seq<char>,
    pub indexed_at: Option<i64>,
    pub added_at: i64,
}

impl View for Domain {
    type V = DomainView;

    open spec fn view(&self) -> DomainView {
        DomainView {
            id: self.id,
            name: self.domain@,
            indexed_at: self.indexed_at,
            added_at: self.added_at,
        }
    }
}

impl Domain {
    /// A copy of this row.
    pub fn duplicate(&self) -> (r: Domain)
        ensures
            r@ == self@,
    {
        Domain {
            id: self.id,
            domain: self.domain.clone(),
            indexed_at: self.indexed_at,
            added_at: self.added_at,
        }
    }
}

/// A directed edge: a crawl of `parent_domain` found a link to `child_domain`.
#[derive(Debug, Clone, Copy, PartialEq, Eq, Structural)]
pub struct DomainLink {
    pub parent_domain: usize,
    pub child_domain: usize,
}

/// A page found by the crawl of its owning domain.
#[derive(Debug)]
pub struct WebsitePage {
    pub id: usize,
    pub domain: usize,
    pub title: Option<String>,
    pub page_url: String,
    pub indexed_at: i64,
}

pub struct PageView {
    pub id: usize,
    pub domain: usize,
    pub title: Option<Seq<char>>,
    pub page_url: Seq<char>,
    pub indexed_at: i64,
}

pub open spec fn opt_string_view(s: Option<String>) -> Option<Seq<char>> {
    match s {
        Some(t) => Some(t@),
        None => None,
    }
}

impl View for WebsitePage {
    type V = PageView;

    open spec fn view(&self) -> PageView {
        PageView {
            id: self.id,
            domain: self.domain,
            title: opt_string_view(self.title),
            page_url: self.page_url@,
            indexed_at: self.indexed_at,
        }
    }
}

/// Copies an optional string.
pub fn copy_opt_string(s: &Option<String>) -> (r: Option<String>)
    ensures
        opt_string_view(r) == opt_string_view(*s),
{
    match s {
        Some(t) => Some(t.clone()),
        None => None,
    }
}

impl WebsitePage {
    /// A copy of this row.
    pub fn duplicate(&self) -> (r: WebsitePage)
        ensures
            r@ == self@,
    {
        WebsitePage {
            id: self.id,
            domain: self.domain,
            title: copy_opt_string(&self.title),
            page_url: self.page_url.clone(),
            indexed_at: self.indexed_at,
        }
    }
}

} // verus!
