//! The crawl orchestrator's decisions: seeding the frontier, and folding one
//! domain's fetched pages and links into the store as one atomic change.

use vstd::prelude::*;
use crate::error::{SearchError, SearchResult, StoreError};
use crate::models::{Domain, DomainLink, DomainView, opt_string_view};
use crate::store::{
    CrawlStore, StoreView, domains_wf, find_non_indexed, pending, insert_pos, lemma_insert_pos_bounds,
    lemma_with_domain_wf, new_domain_row, find_by_domain, has_domain_id,
    has_name, has_page_url, insert_domain_link, insert_website_page_if_absent, marked, push_domain_row,
    set_domain_indexed, store_wf, with_domain, with_link, with_page,
};
use crate::text::{extract_page_title, page_title_text};
use crate::urls::{normalized_url, parse_url, parse_url_raw, url_parse_result};

verus! {

/// The store after `insertIfAbsent(name)`: unchanged where the name is stored.
pub open spec fn seeded(v: StoreView, name: Seq<char>, now: i64) -> StoreView {
    if has_name(v.domains, name) {
        v
    } else {
        with_domain(v, name, now)
    }
}

/// The store after `insertIfAbsent` of each name in turn.
pub open spec fn seed_all(v: StoreView, names: Seq<Seq<char>>, now: i64) -> StoreView
    decreases names.len(),
{
    if names.len() == 0 {
        v
    } else {
        seeded(seed_all(v, names.drop_last(), now), names.last(), now)
    }
}

/// Returns the domain named `name`, adding it as pending at `now` where it is
/// not stored yet.
pub fn insert_domain_if_absent(store: &mut CrawlStore, name: &String, now: i64) -> (r: Domain)
    requires
        store_wf(old(store)@),
    ensures
        store_wf(final(store)@),
        final(store)@ == seeded(old(store)@, name@, now),
        r@.name == name@,
        final(store)@.domains.contains(r@),
        has_name(old(store)@.domains, name@) ==> old(store)@.domains.contains(r@),
        forall|id: usize| has_domain_id(old(store)@.domains, id) ==> has_domain_id(final(store)@.domains, id),
{
    match find_by_domain(store, name) {
        Some(d) => d,
        None => push_domain_row(store, name.clone(), now),
    }
}

pub open spec fn strings_view(v: Seq<String>) -> Seq<Seq<char>> {
    v.map_values(|s: String| s@)
}

/// Adds each seed domain that is not stored yet, as pending at `now`.
pub fn insert_initial_websites(store: &mut CrawlStore, seeds: &Vec<String>, now: i64)
    requires
        store_wf(old(store)@),
    ensures
        store_wf(final(store)@),
        final(store)@ == seed_all(old(store)@, strings_view(seeds@), now),
{
    let ghost start = store@;
    let mut i: usize = 0;
    while i < seeds.len()
        invariant
            i <= seeds@.len(),
            store_wf(store@),
            store@ == seed_all(start, strings_view(seeds@).take(i as int), now),
        decreases seeds@.len() - i,
    {
        assert(strings_view(seeds@).take(i + 1).drop_last() =~= strings_view(seeds@).take(i as int));
        insert_domain_if_absent(store, &seeds[i], now);
        i = i + 1;
    }
    assert(strings_view(seeds@).take(seeds@.len() as int) =~= strings_view(seeds@));
}

/// Seeds the frontier with `seeds` at `now`, then returns the dispatch batch:
/// every domain awaiting a crawl, oldest first.
pub fn crawl_websites(store: &mut CrawlStore, seeds: &Vec<String>, now: i64) -> (r: Vec<Domain>)
    requires
        store_wf(old(store)@),
    ensures
        store_wf(final(store)@),
        final(store)@ == seed_all(old(store)@, strings_view(seeds@), now),
        r@.map_values(|d: Domain| d@) == pending(final(store)@.domains),
{
    insert_initial_websites(store, seeds, now);
    find_non_indexed(store)
}

/// A page as the fetcher hands it over: its URL and its raw HTML.
pub struct FetchedPage {
    pub url: String,
    pub html: String,
}

pub open spec fn pages_view(v: Seq<FetchedPage>) -> Seq<(Seq<char>, Seq<char>)> {
    v.map_values(|p: FetchedPage| (p.url@, p.html@))
}

/// A page to store: its URL as `url` serializes it, and its title.
pub struct PageEntry {
    pub url: String,
    pub title: Option<String>,
}

pub open spec fn entries_view(v: Seq<PageEntry>) -> Seq<(Seq<char>, Option<Seq<char>>)> {
    v.map_values(|e: PageEntry| (e.url@, opt_string_view(e.title)))
}

/// Every fetched page's URL parses.
pub open spec fn pages_parse(pages: Seq<(Seq<char>, Seq<char>)>) -> bool {
    forall|i: int| 0 <= i < pages.len() ==> url_parse_result(#[trigger] pages[i].0) is Some
}

/// The serialization of `s` parsed as a URL.
pub open spec fn parsed_text(s: Seq<char>) -> Seq<char> {
    match url_parse_result(s) {
        Some(p) => p.0,
        None => Seq::empty(),
    }
}

/// The page entries of fetched pages whose URLs all parse.
pub open spec fn page_entries(pages: Seq<(Seq<char>, Seq<char>)>) -> Seq<(Seq<char>, Option<Seq<char>>)> {
    pages.map_values(
        |p: (Seq<char>, Seq<char>)| (parsed_text(p.0), page_title_text(p.1)),
    )
}

/// Parses the URL and extracts the title of each fetched page; fails on the
/// first URL that does not parse.
pub fn page_entries_of(pages: &Vec<FetchedPage>) -> (r: SearchResult<Vec<PageEntry>>)
    ensures
        match r {
            Ok(es) => pages_parse(pages_view(pages@)) && entries_view(es@) == page_entries(
                pages_view(pages@),
            ),
            Err(e) => !pages_parse(pages_view(pages@)) && e is URLError,
        },
{
    let mut out: Vec<PageEntry> = Vec::new();
    let mut i: usize = 0;
    while i < pages.len()
        invariant
            i <= pages@.len(),
            pages_parse(pages_view(pages@).take(i as int)),
            entries_view(out@) == page_entries(pages_view(pages@).take(i as int)),
        decreases pages@.len() - i,
    {
        let ghost prev = out@;
        let page = &pages[i];
        assert(pages_view(pages@)[i as int] == (page.url@, page.html@));
        match parse_url_raw(page.url.as_str()) {
            Ok(parsed) => {
                let title = extract_page_title(page.html.as_str());
                let ghost item = (parsed.text@, opt_string_view(title));
                out.push(PageEntry { url: parsed.text, title });
                assert(entries_view(out@) =~= entries_view(prev).push(item));
                assert(page_entries(pages_view(pages@).take(i + 1)) =~= page_entries(
                    pages_view(pages@).take(i as int),
                ).push(item));
                assert(pages_parse(pages_view(pages@).take(i + 1))) by {
                    assert forall|k: int| 0 <= k < i + 1 implies url_parse_result(
                        #[trigger] pages_view(pages@).take(i + 1)[k].0,
                    ) is Some by {
                        if k < i {
                            assert(pages_view(pages@).take(i + 1)[k] == pages_view(pages@).take(
                                i as int,
                            )[k]);
                        }
                    }
                }
            },
            Err(e) => {
                assert(url_parse_result(pages_view(pages@)[i as int].0) is None);
                assert(!pages_parse(pages_view(pages@)));
                return Err(SearchError::URLError(e));
            },
        }
        i = i + 1;
    }
    assert(pages_view(pages@).take(pages@.len() as int) =~= pages_view(pages@));
    Ok(out)
}

/// The store after the page entries were added in turn for `owner`, skipping
/// each URL already stored.
pub open spec fn add_pages(
    v: StoreView,
    owner: usize,
    entries: Seq<(Seq<char>, Option<Seq<char>>)>,
    now: i64,
) -> StoreView
    decreases entries.len(),
{
    if entries.len() == 0 {
        v
    } else {
        let w = add_pages(v, owner, entries.drop_last(), now);
        let e = entries.last();
        if has_page_url(w.pages, e.0) {
            w
        } else {
            with_page(w, owner, e.1, e.0, now)
        }
    }
}

/// Stores each page entry of `domain` whose URL is not stored yet; an entry
/// whose URL is stored is skipped, its title unchanged.
pub fn handle_website_pages(
    store: &mut CrawlStore,
    entries: &Vec<PageEntry>,
    domain: &Domain,
    now: i64,
)
    requires
        store_wf(old(store)@),
        has_domain_id(old(store)@.domains, domain.id),
    ensures
        store_wf(final(store)@),
        final(store)@ == add_pages(old(store)@, domain.id, entries_view(entries@), now),
        final(store)@.domains == old(store)@.domains,
{
    let ghost start = store@;
    let mut i: usize = 0;
    while i < entries.len()
        invariant
            i <= entries@.len(),
            store_wf(store@),
            store@.domains == start.domains,
            has_domain_id(start.domains, domain.id),
            store@ == add_pages(start, domain.id, entries_view(entries@).take(i as int), now),
        decreases entries@.len() - i,
    {
        let entry = &entries[i];
        assert(entries_view(entries@).take(i + 1).drop_last() =~= entries_view(entries@).take(
            i as int,
        ));
        assert(entries_view(entries@).take(i + 1).last() == (entry.url@, opt_string_view(entry.title)));
        let title = crate::models::copy_opt_string(&entry.title);
        let _ = insert_website_page_if_absent(store, domain, title, entry.url.clone(), now);
        i = i + 1;
    }
    assert(entries_view(entries@).take(entries@.len() as int) =~= entries_view(entries@));
}

/// What a discovered link comes to, given the crawl root's serialization:
/// `Some(Some(name))`, the domain that it points to; `Some(None)`, the crawl
/// root itself; `None`, a link that does not parse or whose host is no domain.
pub open spec fn link_target(root: Seq<char>, link: Seq<char>) -> Option<Option<Seq<char>>> {
    match normalized_url(link) {
        None => None,
        Some(p) => if p.0 == root {
            Some(None)
        } else {
            match p.1 {
                Some(d) => Some(Some(d)),
                None => None,
            }
        },
    }
}

/// Every link parses and, but for the root, points to a domain.
pub open spec fn links_resolve(root: Seq<char>, links: Seq<Seq<char>>) -> bool {
    forall|i: int| 0 <= i < links.len() ==> link_target(root, #[trigger] links[i]) is Some
}

/// The domains that the links point to, in order, without the crawl root.
pub open spec fn link_children(root: Seq<char>, links: Seq<Seq<char>>) -> Seq<Seq<char>>
    decreases links.len(),
{
    if links.len() == 0 {
        Seq::empty()
    } else {
        let c = link_children(root, links.drop_last());
        match link_target(root, links.last()) {
            Some(Some(d)) => c.push(d),
            _ => c,
        }
    }
}

/// Resolves each discovered link against the crawl root `root`: a link equal
/// to the root is left out, any other gives the domain it points to. Fails on
/// the first link that does not parse or has no domain.
pub fn link_children_of(root: &String, links: &Vec<String>) -> (r: SearchResult<Vec<String>>)
    ensures
        match r {
            Ok(cs) => links_resolve(root@, strings_view(links@)) && strings_view(cs@)
                == link_children(root@, strings_view(links@)),
            Err(_) => !links_resolve(root@, strings_view(links@)),
        },
{
    let ghost lv = strings_view(links@);
    let mut out: Vec<String> = Vec::new();
    let mut i: usize = 0;
    while i < links.len()
        invariant
            lv == strings_view(links@),
            i <= links@.len(),
            links_resolve(root@, lv.take(i as int)),
            strings_view(out@) == link_children(root@, lv.take(i as int)),
        decreases links@.len() - i,
    {
        let ghost prev = out@;
        assert(lv.take(i + 1).drop_last() =~= lv.take(i as int));
        assert(lv.take(i + 1).last() == links@[i as int]@);
        assert(lv[i as int] == links@[i as int]@);
        let parsed = match parse_url(links[i].as_str()) {
            Ok(p) => p,
            Err(e) => {
                assert(link_target(root@, lv[i as int]) is None);
                return Err(SearchError::URLError(e));
            },
        };
        if parsed.text != *root {
            match parsed.domain {
                Some(d) => {
                    let ghost dv = d@;
                    out.push(d);
                    assert(strings_view(out@) =~= strings_view(prev).push(dv));
                },
                None => {
                    assert(link_target(root@, lv[i as int]) is None);
                    return Err(SearchError::NoDomain);
                },
            }
        }
        assert(links_resolve(root@, lv.take(i + 1))) by {
            assert forall|k: int| 0 <= k < i + 1 implies link_target(
                root@,
                #[trigger] lv.take(i + 1)[k],
            ) is Some by {
                if k < i {
                    assert(lv.take(i + 1)[k] == lv.take(i as int)[k]);
                }
            }
        }
        i = i + 1;
    }
    assert(lv.take(links@.len() as int) =~= lv);
    Ok(out)
}

/// The id of the stored domain named `name`.
pub open spec fn name_id(ds: Seq<DomainView>, name: Seq<char>) -> usize {
    ds[choose|k: int| 0 <= k < ds.len() && ds[k].name == name].id
}

proof fn lemma_name_id(ds: Seq<DomainView>, r: DomainView)
    requires
        domains_wf(ds),
        ds.contains(r),
    ensures
        name_id(ds, r.name) == r.id,
        has_domain_id(ds, r.id),
{
    let j = choose|j: int| 0 <= j < ds.len() && ds[j] == r;
    let k = choose|k: int| 0 <= k < ds.len() && ds[k].name == r.name;
    assert(ds[j].name == r.name);
    assert(ds[j].id == r.id);
    if k != j {
        assert(ds[k].name != ds[j].name);
    }
}

/// The store after each child domain in turn was resolved or added as pending,
/// and linked from `parent` unless it is `parent` itself.
pub open spec fn add_links(v: StoreView, parent: usize, children: Seq<Seq<char>>, now: i64) -> StoreView
    decreases children.len(),
{
    if children.len() == 0 {
        v
    } else {
        let w = seeded(add_links(v, parent, children.drop_last(), now), children.last(), now);
        let c = name_id(w.domains, children.last());
        if c == parent {
            w
        } else {
            with_link(w, DomainLink { parent_domain: parent, child_domain: c })
        }
    }
}

/// Resolves or adds each child domain and links `domain` to it; no link from a
/// domain to itself is made.
pub fn handle_website_link(store: &mut CrawlStore, children: &Vec<String>, domain: &Domain, now: i64)
    requires
        store_wf(old(store)@),
        has_domain_id(old(store)@.domains, domain.id),
    ensures
        store_wf(final(store)@),
        final(store)@ == add_links(old(store)@, domain.id, strings_view(children@), now),
{
    let ghost start = store@;
    let ghost cv = strings_view(children@);
    let mut i: usize = 0;
    while i < children.len()
        invariant
            cv == strings_view(children@),
            i <= children@.len(),
            store_wf(store@),
            has_domain_id(store@.domains, domain.id),
            store@ == add_links(start, domain.id, cv.take(i as int), now),
        decreases children@.len() - i,
    {
        assert(cv.take(i + 1).drop_last() =~= cv.take(i as int));
        assert(cv.take(i + 1).last() == children@[i as int]@);
        let child = insert_domain_if_absent(store, &children[i], now);
        proof {
            lemma_name_id(store@.domains, child@);
        }
        if child.id != domain.id {
            let _ = insert_domain_link(store, domain, &child);
        }
        i = i + 1;
    }
    assert(cv.take(children@.len() as int) =~= cv);
}

/// The serialization of the crawl root of the domain named `name`.
pub open spec fn root_text(name: Seq<char>) -> Seq<char> {
    match normalized_url(name) {
        Some(p) => p.0,
        None => Seq::empty(),
    }
}

/// A crawl of `domain` with these results can be stored: its name gives a
/// URL, its row is stored, every page URL parses and every link resolves.
pub open spec fn crawl_storable(
    v: StoreView,
    domain: DomainView,
    pages: Seq<(Seq<char>, Seq<char>)>,
    links: Seq<Seq<char>>,
) -> bool {
    &&& normalized_url(domain.name) is Some
    &&& has_domain_id(v.domains, domain.id)
    &&& pages_parse(pages)
    &&& links_resolve(root_text(domain.name), links)
}

/// The store after a crawl of `domain` was stored: the domain marked indexed,
/// then its new pages added, then its links added.
pub open spec fn crawl_outcome(
    v: StoreView,
    domain: DomainView,
    pages: Seq<(Seq<char>, Seq<char>)>,
    links: Seq<Seq<char>>,
    now: i64,
) -> StoreView {
    add_links(
        add_pages(marked(v, domain.id, now), domain.id, page_entries(pages), now),
        domain.id,
        link_children(root_text(domain.name), links),
        now,
    )
}

/// Stores the result of crawling `to_index` as one change: on success the
/// domain is indexed at `now`, each fetched page whose URL is new is stored
/// with its title, and each link leads to a domain, added as pending where it
/// is new, and to a link from `to_index` unless it is `to_index` itself. A link
/// equal to the crawl root is skipped, and so is that link alone: the links
/// after it are still stored. On any failure the store is left as it was.
pub fn crawl_next(
    store: &mut CrawlStore,
    to_index: &Domain,
    pages: &Vec<FetchedPage>,
    links: &Vec<String>,
    now: i64,
) -> (r: SearchResult<()>)
    requires
        store_wf(old(store)@),
    ensures
        store_wf(final(store)@),
        r is Ok <==> crawl_storable(old(store)@, to_index@, pages_view(pages@), strings_view(links@)),
        r is Ok ==> final(store)@ == crawl_outcome(
            old(store)@,
            to_index@,
            pages_view(pages@),
            strings_view(links@),
            now,
        ),
        r is Err ==> final(store)@ == old(store)@,
        normalized_url(to_index@.name) is None ==> (r matches Err(SearchError::URLError(_))),
        normalized_url(to_index@.name) is Some && !pages_parse(pages_view(pages@)) ==> (r matches Err(
            SearchError::URLError(_),
        )),
        normalized_url(to_index@.name) is Some && pages_parse(pages_view(pages@)) && links_resolve(
            root_text(to_index@.name),
            strings_view(links@),
        ) && !has_domain_id(old(store)@.domains, to_index.id) ==> (r matches Err(
            SearchError::Store(StoreError::RowNotFound),
        )),
{
    let root = match parse_url(to_index.domain.as_str()) {
        Ok(p) => p,
        Err(e) => return Err(SearchError::URLError(e)),
    };
    let entries = match page_entries_of(pages) {
        Ok(es) => es,
        Err(e) => return Err(e),
    };
    let children = match link_children_of(&root.text, links) {
        Ok(cs) => cs,
        Err(e) => return Err(e),
    };
    let domain = match set_domain_indexed(store, to_index, now) {
        Ok(d) => d,
        Err(e) => return Err(e),
    };
    proof {
        let k = choose|k: int| 0 <= k < store@.domains.len() && store@.domains[k] == domain@;
        assert(store@.domains[k].id == to_index.id);
    }
    handle_website_pages(store, &entries, &domain, now);
    handle_website_link(store, &children, &domain, now);
    Ok(())
}

proof fn lemma_with_domain_keeps(v: StoreView, name: Seq<char>, now: i64)
    requires
        store_wf(v),
        !has_name(v.domains, name),
    ensures
        forall|r: DomainView| v.domains.contains(r) ==> with_domain(v, name, now).domains.contains(r),
        forall|n: Seq<char>| has_name(v.domains, n) ==> has_name(with_domain(v, name, now).domains, n),
        has_name(with_domain(v, name, now).domains, name),
        with_domain(v, name, now).domains.len() == v.domains.len() + 1,
{
    let ds = v.domains;
    let pos = insert_pos(ds, now);
    let d = new_domain_row(v, name, now);
    let ns = with_domain(v, name, now).domains;
    lemma_insert_pos_bounds(ds, now);
    ds.insert_ensures(pos, d);
    assert(ns[pos] == d);
    assert(ns[pos].name == name);
    assert forall|r: DomainView| ds.contains(r) implies ns.contains(r) by {
        let k = choose|k: int| 0 <= k < ds.len() && ds[k] == r;
        if k < pos {
            assert(ns[k] == r);
        } else {
            assert(ns[k + 1] == r);
        }
    }
    assert forall|n: Seq<char>| has_name(ds, n) implies has_name(ns, n) by {
        let k = choose|k: int| 0 <= k < ds.len() && #[trigger] ds[k].name == n;
        assert(ns.contains(ds[k]));
        let j = choose|j: int| 0 <= j < ns.len() && ns[j] == ds[k];
        assert(ns[j].name == n);
    }
}

/// `insertIfAbsent` twice with one name: the second call changes nothing, and
/// the store holds exactly one row of that name.
pub proof fn lemma_insert_if_absent_twice(v: StoreView, name: Seq<char>, t1: i64, t2: i64)
    requires
        store_wf(v),
        v.domains.len() < usize::MAX,
    ensures
        seeded(seeded(v, name, t1), name, t2) == seeded(v, name, t1),
        has_name(seeded(v, name, t1).domains, name),
        forall|i: int, j: int|
            0 <= i < seeded(v, name, t1).domains.len() && 0 <= j < seeded(v, name, t1).domains.len()
                && #[trigger] seeded(v, name, t1).domains[i].name == name
                && #[trigger] seeded(v, name, t1).domains[j].name == name ==> i == j,
{
    if !has_name(v.domains, name) {
        lemma_with_domain_keeps(v, name, t1);
        lemma_with_domain_wf(v, name, t1);
    }
}

/// Seeding again with names that overlap earlier seeds adds no second row of
/// a name and leaves every stored row as it was (an indexed domain stays
/// indexed); every seed name is then stored.
pub proof fn lemma_reseed_keeps_rows(v: StoreView, names: Seq<Seq<char>>, now: i64)
    requires
        store_wf(v),
        v.domains.len() + names.len() <= usize::MAX,
    ensures
        store_wf(seed_all(v, names, now)),
        forall|r: DomainView| v.domains.contains(r) ==> seed_all(v, names, now).domains.contains(r),
        forall|i: int| 0 <= i < names.len() ==> has_name(seed_all(v, names, now).domains, #[trigger] names[i]),
        seed_all(v, names, now).domains.len() <= v.domains.len() + names.len(),
        seed_all(v, names, now).pages == v.pages,
        seed_all(v, names, now).links == v.links,
    decreases names.len(),
{
    if names.len() > 0 {
        let nl = names.drop_last();
        lemma_reseed_keeps_rows(v, nl, now);
        let w = seed_all(v, nl, now);
        let last = names.last();
        if !has_name(w.domains, last) {
            lemma_with_domain_keeps(w, last, now);
            lemma_with_domain_wf(w, last, now);
        }
        assert forall|i: int| 0 <= i < names.len() implies has_name(
            seed_all(v, names, now).domains,
            #[trigger] names[i],
        ) by {
            if i < names.len() - 1 {
                assert(nl[i] == names[i]);
            }
        }
    }
}

/// Adding the same page URL twice keeps one row of it, with the first title.
pub proof fn lemma_page_dedup(
    v: StoreView,
    owner: usize,
    url: Seq<char>,
    t1: Option<Seq<char>>,
    t2: Option<Seq<char>>,
    now: i64,
)
    requires
        store_wf(v),
    ensures
        add_pages(v, owner, seq![(url, t1), (url, t2)], now) == add_pages(v, owner, seq![(url, t1)], now),
        has_page_url(add_pages(v, owner, seq![(url, t1)], now).pages, url),
        forall|i: int, j: int|
            0 <= i < add_pages(v, owner, seq![(url, t1)], now).pages.len() && 0 <= j < add_pages(
                v,
                owner,
                seq![(url, t1)],
                now,
            ).pages.len() && #[trigger] add_pages(v, owner, seq![(url, t1)], now).pages[i].page_url == url
                && #[trigger] add_pages(v, owner, seq![(url, t1)], now).pages[j].page_url == url ==> i == j,
        !has_page_url(v.pages, url) ==> add_pages(v, owner, seq![(url, t1)], now).pages.last()
            == (crate::models::PageView { id: v.pages.len() as usize, domain: owner, title: t1, page_url: url, indexed_at: now }),
{
    let two = seq![(url, t1), (url, t2)];
    let one = seq![(url, t1)];
    assert(two.drop_last() =~= one);
    assert(one.drop_last() =~= Seq::<(Seq<char>, Option<Seq<char>>)>::empty());
    assert(add_pages(v, owner, one.drop_last(), now) == v);
    let w = add_pages(v, owner, one, now);
    assert(add_pages(v, owner, two.drop_last(), now) == w);
    assert(two.last() == (url, t2));
    assert(one.last() == (url, t1));
    if has_page_url(v.pages, url) {
        assert(w == v);
    } else {
        assert(w.pages[v.pages.len() as int].page_url == url);
        assert(has_page_url(w.pages, url));
        assert forall|i: int, j: int|
            0 <= i < w.pages.len() && 0 <= j < w.pages.len() && #[trigger] w.pages[i].page_url == url
                && #[trigger] w.pages[j].page_url == url implies i == j by {
            if i < v.pages.len() {
                assert(v.pages[i].page_url == url);
            }
            if j < v.pages.len() {
                assert(v.pages[j].page_url == url);
            }
        }
    }
}

/// A crawl stores no link from a domain to itself: every stored link joins two
/// different domains.
pub proof fn lemma_no_self_links(v: StoreView)
    requires
        store_wf(v),
    ensures
        forall|i: int| 0 <= i < v.links.len() ==> (#[trigger] v.links[i]).parent_domain != v.links[i].child_domain,
{
}

/// The links that folding a crawl's children adds all leave `parent` and none
/// returns to it; the links stored before are kept.
pub proof fn lemma_add_links_from_parent(v: StoreView, parent: usize, children: Seq<Seq<char>>, now: i64)
    ensures
        add_links(v, parent, children, now).links.len() >= v.links.len(),
        forall|i: int| 0 <= i < v.links.len() ==> #[trigger] add_links(v, parent, children, now).links[i] == v.links[i],
        forall|i: int|
            v.links.len() <= i < add_links(v, parent, children, now).links.len() ==> {
                &&& (#[trigger] add_links(v, parent, children, now).links[i]).parent_domain == parent
                &&& add_links(v, parent, children, now).links[i].child_domain != parent
            },
    decreases children.len(),
{
    if children.len() > 0 {
        lemma_add_links_from_parent(v, parent, children.drop_last(), now);
    }
}

} // verus!
