//! An in-memory relational store of domains, pages and domain links, with the
//! constraints of its tables: unique domain names and page URLs, foreign keys
//! into the domain table, no self-links, and the domain table kept in the order
//! of `added_at` so that the frontier is read oldest first.

use vstd::prelude::*;
use crate::error::{SearchError, SearchResult, StoreError};
use crate::models::{Domain, DomainLink, DomainView, PageView, WebsitePage, opt_string_view};

verus! {

pub struct StoreView {
    pub domains: Seq<DomainView>,
    pub pages: Seq<PageView>,
    pub links: Seq<DomainLink>,
}

/// The three tables. Callers keep `wf` by going through the functions below.
pub struct CrawlStore {
    pub domains: Vec<Domain>,
    pub pages: Vec<WebsitePage>,
    pub links: Vec<DomainLink>,
}

impl View for CrawlStore {
    type V = StoreView;

    open spec fn view(&self) -> StoreView {
        StoreView {
            domains: self.domains@.map_values(|d: Domain| d@),
            pages: self.pages@.map_values(|p: WebsitePage| p@),
            links: self.links@,
        }
    }
}

pub open spec fn has_name(ds: Seq<DomainView>, name: Seq<char>) -> bool {
    exists|k: int| 0 <= k < ds.len() && #[trigger] ds[k].name == name
}

pub open spec fn has_domain_id(ds: Seq<DomainView>, id: usize) -> bool {
    exists|k: int| 0 <= k < ds.len() && #[trigger] ds[k].id == id
}

pub open spec fn has_page_url(ps: Seq<PageView>, url: Seq<char>) -> bool {
    exists|k: int| 0 <= k < ps.len() && #[trigger] ps[k].page_url == url
}

/// Names unique, ids unique and below the row count, `added_at` ascending.
pub open spec fn domains_wf(ds: Seq<DomainView>) -> bool {
    &&& forall|i: int, j: int|
        0 <= i < ds.len() && 0 <= j < ds.len() && i != j ==> #[trigger] ds[i].name != #[trigger] ds[j].name
    &&& forall|i: int, j: int|
        0 <= i < ds.len() && 0 <= j < ds.len() && i != j ==> #[trigger] ds[i].id != #[trigger] ds[j].id
    &&& forall|i: int| 0 <= i < ds.len() ==> #[trigger] ds[i].id < ds.len()
    &&& sorted_by_added(ds)
}

/// Rows in the order of `added_at`.
pub open spec fn sorted_by_added(ds: Seq<DomainView>) -> bool {
    forall|i: int, j: int|
        0 <= i <= j < ds.len() ==> #[trigger] ds[i].added_at <= #[trigger] ds[j].added_at
}

/// Page ids are their positions, URLs are unique, owners exist.
pub open spec fn pages_wf(ds: Seq<DomainView>, ps: Seq<PageView>) -> bool {
    &&& forall|i: int| 0 <= i < ps.len() ==> #[trigger] ps[i].id == i
    &&& forall|i: int, j: int|
        0 <= i < ps.len() && 0 <= j < ps.len() && i != j ==> #[trigger] ps[i].page_url
            != #[trigger] ps[j].page_url
    &&& forall|i: int| 0 <= i < ps.len() ==> has_domain_id(ds, #[trigger] ps[i].domain)
}

/// Links join two different stored domains.
pub open spec fn links_wf(ds: Seq<DomainView>, ls: Seq<DomainLink>) -> bool {
    forall|i: int|
        0 <= i < ls.len() ==> {
            &&& #[trigger] ls[i].parent_domain != ls[i].child_domain
            &&& has_domain_id(ds, ls[i].parent_domain)
            &&& has_domain_id(ds, ls[i].child_domain)
        }
}

pub open spec fn store_wf(v: StoreView) -> bool {
    &&& domains_wf(v.domains)
    &&& pages_wf(v.domains, v.pages)
    &&& links_wf(v.domains, v.links)
}

/// Where a row added at `now` goes: after every row added at or before `now`.
pub open spec fn insert_pos(ds: Seq<DomainView>, now: i64) -> int
    decreases ds.len(),
{
    if ds.len() == 0 {
        0
    } else if ds.last().added_at <= now {
        ds.len() as int
    } else {
        insert_pos(ds.drop_last(), now)
    }
}

/// The row that a new domain gets.
pub open spec fn new_domain_row(v: StoreView, name: Seq<char>, now: i64) -> DomainView {
    DomainView { id: v.domains.len() as usize, name, indexed_at: None, added_at: now }
}

/// The store after a new domain was added.
pub open spec fn with_domain(v: StoreView, name: Seq<char>, now: i64) -> StoreView {
    StoreView {
        domains: v.domains.insert(insert_pos(v.domains, now), new_domain_row(v, name, now)),
        ..v
    }
}

proof fn lemma_insert_pos(ds: Seq<DomainView>, now: i64, i: int)
    requires
        0 <= i <= ds.len(),
        i == 0 || ds[i - 1].added_at <= now,
        forall|k: int| i <= k < ds.len() ==> #[trigger] ds[k].added_at > now,
    ensures
        insert_pos(ds, now) == i,
    decreases ds.len(),
{
    if ds.len() > i {
        lemma_insert_pos(ds.drop_last(), now, i);
    }
}

/// Rows keep their ids when a domain row is inserted.
proof fn lemma_ids_kept(ds: Seq<DomainView>, pos: int, d: DomainView, id: usize)
    requires
        0 <= pos <= ds.len(),
        has_domain_id(ds, id),
    ensures
        has_domain_id(ds.insert(pos, d), id),
{
    ds.insert_ensures(pos, d);
    let k = choose|k: int| 0 <= k < ds.len() && #[trigger] ds[k].id == id;
    if k < pos {
        assert(ds.insert(pos, d)[k].id == id);
    } else {
        assert(ds.insert(pos, d)[k + 1].id == id);
    }
}

proof fn lemma_domains_insert_wf(ds: Seq<DomainView>, d: DomainView, now: i64)
    requires
        domains_wf(ds),
        !has_name(ds, d.name),
        d.id == ds.len(),
        d.added_at == now,
    ensures
        domains_wf(ds.insert(insert_pos(ds, now), d)),
{
    let pos = insert_pos(ds, now);
    let ns = ds.insert(pos, d);
    lemma_insert_pos_bounds(ds, now);
    ds.insert_ensures(pos, d);
    assert forall|i: int| 0 <= i < ns.len() implies #[trigger] ns[i] == (if i < pos {
        ds[i]
    } else if i == pos {
        d
    } else {
        ds[i - 1]
    }) by {
        if i > pos {
            assert(ns[(i - 1) + 1] == ds[i - 1]);
        }
    }
    assert forall|i: int, j: int|
        0 <= i < ns.len() && 0 <= j < ns.len() && i != j implies #[trigger] ns[i].name
        != #[trigger] ns[j].name by {
        if i == pos {
            assert(ds[if j < pos { j } else { j - 1 }].name == ns[j].name);
        } else if j == pos {
            assert(ds[if i < pos { i } else { i - 1 }].name == ns[i].name);
        }
    }
    assert forall|i: int, j: int|
        0 <= i < ns.len() && 0 <= j < ns.len() && i != j implies #[trigger] ns[i].id
        != #[trigger] ns[j].id by {}
    assert forall|i: int| 0 <= i < ns.len() implies #[trigger] ns[i].id < ns.len() by {}
    assert forall|i: int, j: int|
        0 <= i <= j < ns.len() implies #[trigger] ns[i].added_at <= #[trigger] ns[j].added_at by {}
}

pub proof fn lemma_with_domain_wf(v: StoreView, name: Seq<char>, now: i64)
    requires
        store_wf(v),
        !has_name(v.domains, name),
        v.domains.len() <= usize::MAX,
    ensures
        store_wf(with_domain(v, name, now)),
{
    let ds = v.domains;
    let pos = insert_pos(ds, now);
    let d = new_domain_row(v, name, now);
    let ns = ds.insert(pos, d);
    lemma_insert_pos_bounds(ds, now);
    lemma_domains_insert_wf(ds, d, now);
    assert forall|i: int| 0 <= i < v.pages.len() implies has_domain_id(ns, #[trigger] v.pages[i].domain) by {
        lemma_ids_kept(ds, pos, d, v.pages[i].domain);
    }
    assert forall|i: int| 0 <= i < v.links.len() implies {
        &&& #[trigger] v.links[i].parent_domain != v.links[i].child_domain
        &&& has_domain_id(ns, v.links[i].parent_domain)
        &&& has_domain_id(ns, v.links[i].child_domain)
    } by {
        lemma_ids_kept(ds, pos, d, v.links[i].parent_domain);
        lemma_ids_kept(ds, pos, d, v.links[i].child_domain);
    }
}

/// The insertion point splits the rows into those added at or before `now`
/// and those added after it.
pub proof fn lemma_insert_pos_bounds(ds: Seq<DomainView>, now: i64)
    requires
        sorted_by_added(ds),
    ensures
        0 <= insert_pos(ds, now) <= ds.len(),
        forall|k: int| 0 <= k < insert_pos(ds, now) ==> #[trigger] ds[k].added_at <= now,
        forall|k: int| insert_pos(ds, now) <= k < ds.len() ==> #[trigger] ds[k].added_at > now,
    decreases ds.len(),
{
    if ds.len() > 0 {
        if ds.last().added_at <= now {
            assert forall|k: int| 0 <= k < ds.len() implies #[trigger] ds[k].added_at <= now by {
                assert(ds[k].added_at <= ds[ds.len() - 1].added_at);
            }
        } else {
            let dl = ds.drop_last();
            assert forall|i: int, j: int| 0 <= i <= j < dl.len() implies #[trigger] dl[i].added_at
                <= #[trigger] dl[j].added_at by {
                assert(ds[i].added_at <= ds[j].added_at);
            }
            lemma_insert_pos_bounds(dl, now);
            assert forall|k: int| 0 <= k < insert_pos(ds, now) implies #[trigger] ds[k].added_at <= now by {
                assert(dl[k] == ds[k]);
            }
            assert forall|k: int| insert_pos(ds, now) <= k < ds.len() implies #[trigger] ds[k].added_at > now by {
                if k < ds.len() - 1 {
                    assert(dl[k] == ds[k]);
                }
            }
        }
    }
}

impl CrawlStore {
    /// An empty store.
    pub fn new() -> (r: CrawlStore)
        ensures
            r@.domains.len() == 0,
            r@.pages.len() == 0,
            r@.links.len() == 0,
            store_wf(r@),
    {
        CrawlStore { domains: Vec::new(), pages: Vec::new(), links: Vec::new() }
    }
}

/// The stored domain named `domain`, if any.
pub fn find_by_domain(store: &CrawlStore, domain: &String) -> (r: Option<Domain>)
    requires
        store_wf(store@),
    ensures
        match r {
            Some(d) => store@.domains.contains(d@) && d@.name == domain@,
            None => !has_name(store@.domains, domain@),
        },
{
    let mut i: usize = 0;
    while i < store.domains.len()
        invariant
            store_wf(store@),
            i <= store.domains@.len(),
            forall|k: int| 0 <= k < i ==> #[trigger] store@.domains[k].name != domain@,
        decreases store.domains@.len() - i,
    {
        if store.domains[i].domain == *domain {
            let d = store.domains[i].duplicate();
            assert(store@.domains[i as int] == d@);
            return Some(d);
        }
        i = i + 1;
    }
    None
}

/// Adds the row of a new domain, whose name is not stored yet.
pub fn push_domain_row(store: &mut CrawlStore, domain: String, now: i64) -> (r: Domain)
    requires
        store_wf(old(store)@),
        !has_name(old(store)@.domains, domain@),
    ensures
        store_wf(final(store)@),
        r@ == new_domain_row(old(store)@, domain@, now),
        final(store)@ == with_domain(old(store)@, domain@, now),
        forall|id: usize| has_domain_id(old(store)@.domains, id) ==> has_domain_id(final(store)@.domains, id),
        final(store)@.domains.contains(r@),
{
    let len = store.domains.len();
    let mut i: usize = len;
    while i > 0 && store.domains[i - 1].added_at > now
        invariant
            store_wf(store@),
            len == store.domains@.len(),
            i <= len,
            forall|k: int| i <= k < len ==> #[trigger] store@.domains[k].added_at > now,
        decreases i,
    {
        i = i - 1;
    }
    proof {
        lemma_insert_pos(store@.domains, now, i as int);
        lemma_with_domain_wf(store@, domain@, now);
        lemma_insert_pos_bounds(store@.domains, now);
        store@.domains.insert_ensures(i as int, new_domain_row(store@, domain@, now));
        assert forall|id: usize| has_domain_id(store@.domains, id) implies has_domain_id(
            with_domain(store@, domain@, now).domains,
            id,
        ) by {
            lemma_ids_kept(store@.domains, i as int, new_domain_row(store@, domain@, now), id);
        }
    }
    let row = Domain { id: len, domain: domain.clone(), indexed_at: None, added_at: now };
    let ghost before = store@;
    store.domains.insert(i, row);
    let ghost d = new_domain_row(before, domain@, now);
    assert(store@.domains =~= before.domains.insert(i as int, d));
    assert(store@.domains[i as int] == d);
    Domain { id: len, domain, indexed_at: None, added_at: now }
}

/// Adds a pending domain, added at `now`; a name already stored is refused.
pub fn insert_domain_to_index(store: &mut CrawlStore, domain: String, now: i64) -> (r: SearchResult<
    Domain,
>)
    requires
        store_wf(old(store)@),
    ensures
        store_wf(final(store)@),
        match r {
            Ok(d) => !has_name(old(store)@.domains, domain@) && d@ == new_domain_row(
                old(store)@,
                domain@,
                now,
            ) && final(store)@ == with_domain(old(store)@, domain@, now),
            Err(e) => has_name(old(store)@.domains, domain@) && (e matches SearchError::Store(
                StoreError::UniqueViolation,
            )) && final(store)@ == old(store)@,
        },
{
    if find_by_domain(store, &domain).is_some() {
        return Err(SearchError::Store(StoreError::UniqueViolation));
    }
    Ok(push_domain_row(store, domain, now))
}

/// The row of domain `id` once it is marked indexed at `now`.
pub open spec fn mark_row(r: DomainView, id: usize, now: i64) -> DomainView {
    if r.id == id {
        DomainView { indexed_at: Some(now), ..r }
    } else {
        r
    }
}

/// The store after domain `id` was marked indexed at `now`.
pub open spec fn marked(v: StoreView, id: usize, now: i64) -> StoreView {
    StoreView { domains: v.domains.map_values(|r: DomainView| mark_row(r, id, now)), ..v }
}

/// The rows awaiting a crawl, in table order.
pub open spec fn pending(ds: Seq<DomainView>) -> Seq<DomainView>
    decreases ds.len(),
{
    if ds.len() == 0 {
        Seq::empty()
    } else if ds.last().indexed_at is None {
        pending(ds.drop_last()).push(ds.last())
    } else {
        pending(ds.drop_last())
    }
}

/// Sets `indexed_at` of the stored row with the id of `domain` to `now` and
/// returns that row; `RowNotFound` where no row has that id.
pub fn set_domain_indexed(store: &mut CrawlStore, domain: &Domain, now: i64) -> (r: SearchResult<
    Domain,
>)
    requires
        store_wf(old(store)@),
    ensures
        store_wf(final(store)@),
        match r {
            Ok(d) => has_domain_id(old(store)@.domains, domain.id) && final(store)@ == marked(
                old(store)@,
                domain.id,
                now,
            ) && final(store)@.domains.contains(d@) && d@.id == domain.id,
            Err(e) => !has_domain_id(old(store)@.domains, domain.id) && (e matches SearchError::Store(
                StoreError::RowNotFound,
            )) && final(store)@ == old(store)@,
        },
{
    let ghost before = store@;
    let mut i: usize = 0;
    while i < store.domains.len()
        invariant
            store@ == before,
            before == old(store)@,
            store_wf(before),
            i <= store.domains@.len(),
            forall|k: int| 0 <= k < i ==> #[trigger] before.domains[k].id != domain.id,
        decreases store.domains@.len() - i,
    {
        if store.domains[i].id == domain.id {
            let mut row = store.domains[i].duplicate();
            row.indexed_at = Some(now);
            let result = row.duplicate();
            store.domains.set(i, row);
            let ghost after = marked(before, domain.id, now);
            assert(before.domains[i as int].id == domain.id);
            assert(has_domain_id(before.domains, domain.id));
            assert forall|k: int| 0 <= k < before.domains.len() implies #[trigger] store@.domains[k]
                == after.domains[k] by {
                if k != i {
                    assert(before.domains[k].id != domain.id);
                }
            }
            assert(store@.domains =~= after.domains);
            assert(store@.domains[i as int] == result@);
            assert(store@.domains.contains(result@));
            assert(store@ == after);
            assert(sorted_by_added(store@.domains)) by {
                assert forall|a: int, b: int| 0 <= a <= b < store@.domains.len() implies
                    #[trigger] store@.domains[a].added_at <= #[trigger] store@.domains[b].added_at by {
                    assert(before.domains[a].added_at <= before.domains[b].added_at);
                }
            }
            assert forall|id: usize| has_domain_id(before.domains, id) implies has_domain_id(
                store@.domains,
                id,
            ) by {
                let k = choose|k: int| 0 <= k < before.domains.len() && #[trigger] before.domains[k].id == id;
                assert(store@.domains[k].id == id);
            }
            assert(store_wf(store@));
            return Ok(result);
        }
        i = i + 1;
    }
    Err(SearchError::Store(StoreError::RowNotFound))
}

/// The domains awaiting a crawl, oldest first.
pub fn find_non_indexed(store: &CrawlStore) -> (r: Vec<Domain>)
    requires
        store_wf(store@),
    ensures
        r@.map_values(|d: Domain| d@) == pending(store@.domains),
{
    let mut out: Vec<Domain> = Vec::new();
    let mut i: usize = 0;
    while i < store.domains.len()
        invariant
            i <= store.domains@.len(),
            out@.map_values(|d: Domain| d@) == pending(store@.domains.take(i as int)),
        decreases store.domains@.len() - i,
    {
        let ghost prev = out@;
        assert(store@.domains.take(i + 1).drop_last() =~= store@.domains.take(i as int));
        if store.domains[i].indexed_at.is_none() {
            out.push(store.domains[i].duplicate());
            assert(out@.map_values(|d: Domain| d@) =~= prev.map_values(|d: Domain| d@).push(
                store@.domains[i as int],
            ));
        }
        i = i + 1;
    }
    assert(store@.domains.take(store.domains@.len() as int) =~= store@.domains);
    out
}

/// The oldest domain awaiting a crawl, if any.
pub fn find_oldest_not_indexed(store: &CrawlStore) -> (r: Option<Domain>)
    requires
        store_wf(store@),
    ensures
        match r {
            Some(d) => pending(store@.domains).len() > 0 && d@ == pending(store@.domains)[0],
            None => pending(store@.domains).len() == 0,
        },
{
    let all = find_non_indexed(store);
    if all.len() > 0 {
        assert(all@.map_values(|d: Domain| d@)[0] == all@[0]@);
        Some(all[0].duplicate())
    } else {
        None
    }
}

/// Is some stored domain's id `id`?
pub fn domain_id_exists(store: &CrawlStore, id: usize) -> (r: bool)
    requires
        store_wf(store@),
    ensures
        r == has_domain_id(store@.domains, id),
{
    let mut i: usize = 0;
    while i < store.domains.len()
        invariant
            i <= store.domains@.len(),
            forall|k: int| 0 <= k < i ==> #[trigger] store@.domains[k].id != id,
        decreases store.domains@.len() - i,
    {
        if store.domains[i].id == id {
            assert(store@.domains[i as int].id == id);
            return true;
        }
        i = i + 1;
    }
    false
}

/// The stored page whose URL is `url`, if any.
pub fn find_website_page_by_url(store: &CrawlStore, url: &String) -> (r: Option<WebsitePage>)
    requires
        store_wf(store@),
    ensures
        match r {
            Some(p) => store@.pages.contains(p@) && p@.page_url == url@,
            None => !has_page_url(store@.pages, url@),
        },
{
    let mut i: usize = 0;
    while i < store.pages.len()
        invariant
            i <= store.pages@.len(),
            forall|k: int| 0 <= k < i ==> #[trigger] store@.pages[k].page_url != url@,
        decreases store.pages@.len() - i,
    {
        if store.pages[i].page_url == *url {
            let p = store.pages[i].duplicate();
            assert(store@.pages[i as int] == p@);
            return Some(p);
        }
        i = i + 1;
    }
    None
}

/// The row that a new page gets.
pub open spec fn new_page_row(
    v: StoreView,
    owner: usize,
    title: Option<Seq<char>>,
    url: Seq<char>,
    now: i64,
) -> PageView {
    PageView { id: v.pages.len() as usize, domain: owner, title, page_url: url, indexed_at: now }
}

/// The store after a new page was added.
pub open spec fn with_page(
    v: StoreView,
    owner: usize,
    title: Option<Seq<char>>,
    url: Seq<char>,
    now: i64,
) -> StoreView {
    StoreView { pages: v.pages.push(new_page_row(v, owner, title, url, now)), ..v }
}

/// Adds a page of `domain` found at `now`. Refused with `ForeignKeyViolation`
/// where `domain` is not stored, else with `UniqueViolation` where the URL is.
pub fn insert_website_page(
    store: &mut CrawlStore,
    domain: &Domain,
    title: Option<String>,
    url: String,
    now: i64,
) -> (r: SearchResult<WebsitePage>)
    requires
        store_wf(old(store)@),
    ensures
        store_wf(final(store)@),
        match r {
            Ok(p) => has_domain_id(old(store)@.domains, domain.id) && !has_page_url(
                old(store)@.pages,
                url@,
            ) && p@ == new_page_row(old(store)@, domain.id, opt_string_view(title), url@, now)
                && final(store)@ == with_page(
                old(store)@,
                domain.id,
                opt_string_view(title),
                url@,
                now,
            ),
            Err(e) => final(store)@ == old(store)@ && if !has_domain_id(
                old(store)@.domains,
                domain.id,
            ) {
                e matches SearchError::Store(StoreError::ForeignKeyViolation)
            } else {
                has_page_url(old(store)@.pages, url@) && (e matches SearchError::Store(
                    StoreError::UniqueViolation,
                ))
            },
        },
{
    if !domain_id_exists(store, domain.id) {
        return Err(SearchError::Store(StoreError::ForeignKeyViolation));
    }
    if find_website_page_by_url(store, &url).is_some() {
        return Err(SearchError::Store(StoreError::UniqueViolation));
    }
    let id = store.pages.len();
    let row = WebsitePage {
        id,
        domain: domain.id,
        title: crate::models::copy_opt_string(&title),
        page_url: url.clone(),
        indexed_at: now,
    };
    let ghost before = store@;
    store.pages.push(row);
    assert(store@.pages =~= before.pages.push(
        new_page_row(before, domain.id, opt_string_view(title), url@, now),
    ));
    Ok(WebsitePage { id, domain: domain.id, title, page_url: url, indexed_at: now })
}

/// Adds a page of `domain` unless its URL is stored: then returns `None` and
/// changes nothing (the stored title is kept). Refused with
/// `ForeignKeyViolation` where `domain` is not stored.
pub fn insert_website_page_if_absent(
    store: &mut CrawlStore,
    domain: &Domain,
    title: Option<String>,
    url: String,
    now: i64,
) -> (r: SearchResult<Option<WebsitePage>>)
    requires
        store_wf(old(store)@),
    ensures
        store_wf(final(store)@),
        match r {
            Ok(Some(p)) => has_domain_id(old(store)@.domains, domain.id) && !has_page_url(
                old(store)@.pages,
                url@,
            ) && p@ == new_page_row(old(store)@, domain.id, opt_string_view(title), url@, now)
                && final(store)@ == with_page(
                old(store)@,
                domain.id,
                opt_string_view(title),
                url@,
                now,
            ),
            Ok(None) => has_domain_id(old(store)@.domains, domain.id) && has_page_url(
                old(store)@.pages,
                url@,
            ) && final(store)@ == old(store)@,
            Err(e) => !has_domain_id(old(store)@.domains, domain.id) && (e matches SearchError::Store(
                StoreError::ForeignKeyViolation,
            )) && final(store)@ == old(store)@,
        },
{
    if !domain_id_exists(store, domain.id) {
        return Err(SearchError::Store(StoreError::ForeignKeyViolation));
    }
    if find_website_page_by_url(store, &url).is_some() {
        return Ok(None);
    }
    match insert_website_page(store, domain, title, url, now) {
        Ok(p) => Ok(Some(p)),
        Err(e) => Err(e),
    }
}

/// The store after a link was added.
pub open spec fn with_link(v: StoreView, link: DomainLink) -> StoreView {
    StoreView { links: v.links.push(link), ..v }
}

/// Adds a link from `parent_domain` to `child_domain`. Refused with
/// `ForeignKeyViolation` where either is not stored, else with `SelfLink` where
/// the two are one domain.
pub fn insert_domain_link(
    store: &mut CrawlStore,
    parent_domain: &Domain,
    child_domain: &Domain,
) -> (r: SearchResult<DomainLink>)
    requires
        store_wf(old(store)@),
    ensures
        store_wf(final(store)@),
        match r {
            Ok(l) => has_domain_id(old(store)@.domains, parent_domain.id) && has_domain_id(
                old(store)@.domains,
                child_domain.id,
            ) && parent_domain.id != child_domain.id && l == (DomainLink {
                parent_domain: parent_domain.id,
                child_domain: child_domain.id,
            }) && final(store)@ == with_link(old(store)@, l),
            Err(e) => final(store)@ == old(store)@ && if !has_domain_id(
                old(store)@.domains,
                parent_domain.id,
            ) || !has_domain_id(old(store)@.domains, child_domain.id) {
                e matches SearchError::Store(StoreError::ForeignKeyViolation)
            } else {
                parent_domain.id == child_domain.id && (e matches SearchError::Store(
                    StoreError::SelfLink,
                ))
            },
        },
{
    if !domain_id_exists(store, parent_domain.id) || !domain_id_exists(store, child_domain.id) {
        return Err(SearchError::Store(StoreError::ForeignKeyViolation));
    }
    if parent_domain.id == child_domain.id {
        return Err(SearchError::Store(StoreError::SelfLink));
    }
    let link = DomainLink { parent_domain: parent_domain.id, child_domain: child_domain.id };
    store.links.push(link);
    Ok(link)
}

/// The rows of `ps` other than that of domain `id`, in order.
pub open spec fn without_id(ps: Seq<DomainView>, id: usize) -> Seq<DomainView>
    decreases ps.len(),
{
    if ps.len() == 0 {
        Seq::empty()
    } else if ps.last().id == id {
        without_id(ps.drop_last(), id)
    } else {
        without_id(ps.drop_last(), id).push(ps.last())
    }
}

proof fn lemma_pending_rows(ds: Seq<DomainView>)
    ensures
        forall|i: int| 0 <= i < pending(ds).len() ==> ds.contains(#[trigger] pending(ds)[i]),
        forall|i: int| 0 <= i < pending(ds).len() ==> (#[trigger] pending(ds)[i]).indexed_at is None,
    decreases ds.len(),
{
    if ds.len() > 0 {
        let dl = ds.drop_last();
        lemma_pending_rows(dl);
        assert forall|i: int| 0 <= i < pending(ds).len() implies ds.contains(#[trigger] pending(ds)[i]) by {
            if i < pending(dl).len() {
                let k = choose|k: int| 0 <= k < dl.len() && dl[k] == pending(dl)[i];
                assert(ds[k] == pending(ds)[i]);
            } else {
                assert(ds[ds.len() - 1] == pending(ds)[i]);
            }
        }
        assert forall|i: int| 0 <= i < pending(ds).len() implies (#[trigger] pending(ds)[i]).indexed_at is None by {
            if i < pending(dl).len() {
                assert(pending(ds)[i] == pending(dl)[i]);
            }
        }
    }
}

proof fn lemma_pending_sorted(ds: Seq<DomainView>)
    requires
        sorted_by_added(ds),
    ensures
        sorted_by_added(pending(ds)),
    decreases ds.len(),
{
    if ds.len() > 0 {
        let dl = ds.drop_last();
        assert(sorted_by_added(dl)) by {
            assert forall|i: int, j: int| 0 <= i <= j < dl.len() implies #[trigger] dl[i].added_at
                <= #[trigger] dl[j].added_at by {
                assert(ds[i].added_at <= ds[j].added_at);
            }
        }
        lemma_pending_sorted(dl);
        lemma_pending_rows(dl);
        let p = pending(ds);
        if ds.last().indexed_at is None {
            assert forall|i: int, j: int| 0 <= i <= j < p.len() implies #[trigger] p[i].added_at
                <= #[trigger] p[j].added_at by {
                if j == p.len() - 1 {
                    let k = choose|k: int| 0 <= k < dl.len() && dl[k] == pending(dl)[i];
                    if i < j {
                        assert(ds[k].added_at <= ds[ds.len() - 1].added_at);
                    }
                } else {
                    assert(p[i] == pending(dl)[i]);
                    assert(p[j] == pending(dl)[j]);
                }
            }
        }
    }
}

proof fn lemma_pending_marked(ds: Seq<DomainView>, id: usize, now: i64)
    ensures
        pending(ds.map_values(|r: DomainView| mark_row(r, id, now))) == without_id(pending(ds), id),
    decreases ds.len(),
{
    let ms = ds.map_values(|r: DomainView| mark_row(r, id, now));
    if ds.len() > 0 {
        let dl = ds.drop_last();
        lemma_pending_marked(dl, id, now);
        assert(ms.drop_last() =~= dl.map_values(|r: DomainView| mark_row(r, id, now)));
        assert(ms.last() == mark_row(ds.last(), id, now));
        if ds.last().indexed_at is None {
            assert(pending(ds).drop_last() =~= pending(dl));
        }
    } else {
        assert(ms =~= Seq::<DomainView>::empty());
    }
}

/// The frontier is read oldest first and holds only pending rows; marking a
/// domain indexed takes exactly its row out of the frontier and keeps the
/// order of the others.
pub proof fn lemma_frontier_order(v: StoreView, id: usize, now: i64)
    requires
        store_wf(v),
    ensures
        sorted_by_added(pending(v.domains)),
        forall|i: int| 0 <= i < pending(v.domains).len() ==> (#[trigger] pending(v.domains)[i]).indexed_at is None,
        pending(marked(v, id, now).domains) == without_id(pending(v.domains), id),
{
    lemma_pending_sorted(v.domains);
    lemma_pending_rows(v.domains);
    lemma_pending_marked(v.domains, id, now);
}

} // verus!
