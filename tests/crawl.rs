use search_crawler::crawl::{
    crawl_next, crawl_websites, insert_domain_if_absent, insert_initial_websites, FetchedPage,
};
use search_crawler::error::SearchError;
use search_crawler::store::{find_by_domain, find_non_indexed, set_domain_indexed, CrawlStore};

fn s(v: &str) -> String {
    String::from(v)
}

fn page(url: &str, html: &str) -> FetchedPage {
    FetchedPage { url: s(url), html: s(html) }
}

#[test]
fn insert_if_absent_twice_one_row() {
    let mut st = CrawlStore::new();
    let first = insert_domain_if_absent(&mut st, &s("a.com"), 1);
    let second = insert_domain_if_absent(&mut st, &s("a.com"), 2);
    assert_eq!(st.domains.len(), 1);
    assert_eq!(first.id, second.id);
    assert_eq!(second.added_at, 1);
}

#[test]
fn reseeding_keeps_rows() {
    let mut st = CrawlStore::new();
    insert_initial_websites(&mut st, &vec![s("a.com"), s("b.com"), s("a.com")], 1);
    assert_eq!(st.domains.len(), 2);
    let a = find_by_domain(&st, &s("a.com")).unwrap();
    set_domain_indexed(&mut st, &a, 5).unwrap();
    insert_initial_websites(&mut st, &vec![s("b.com"), s("a.com"), s("c.com")], 9);
    assert_eq!(st.domains.len(), 3);
    assert_eq!(find_by_domain(&st, &s("a.com")).unwrap().indexed_at, Some(5));
    assert_eq!(find_by_domain(&st, &s("b.com")).unwrap().added_at, 1);
    let pending: Vec<String> = find_non_indexed(&st).iter().map(|d| d.domain.clone()).collect();
    assert_eq!(pending, vec![s("b.com"), s("c.com")]);
}

#[test]
fn end_to_end_example() {
    let mut st = CrawlStore::new();
    insert_initial_websites(&mut st, &vec![s("example.com")], 100);
    let batch = find_non_indexed(&st);
    assert_eq!(batch.len(), 1);
    let pages = vec![page(
        "https://example.com/",
        "<html><head><title>Example</title></head><body></body></html>",
    )];
    let links = vec![s("https://example.com/"), s("https://other.org/")];
    crawl_next(&mut st, &batch[0], &pages, &links, 200).unwrap();

    let example = find_by_domain(&st, &s("example.com")).unwrap();
    assert_eq!(example.indexed_at, Some(200));
    assert_eq!(st.pages.len(), 1);
    assert_eq!(st.pages[0].page_url, "https://example.com/");
    assert_eq!(st.pages[0].title, Some(s("Example")));
    assert_eq!(st.pages[0].domain, example.id);
    // The link equal to the crawl root is skipped alone; the next one is stored.
    let other = find_by_domain(&st, &s("other.org")).unwrap();
    assert_eq!(other.indexed_at, None);
    assert_eq!(st.links.len(), 1);
    assert_eq!(st.links[0].parent_domain, example.id);
    assert_eq!(st.links[0].child_domain, other.id);
}

#[test]
fn no_self_edges() {
    let mut st = CrawlStore::new();
    insert_initial_websites(&mut st, &vec![s("a.com")], 1);
    let a = find_by_domain(&st, &s("a.com")).unwrap();
    let links = vec![s("https://a.com/about"), s("b.com"), s("https://a.com/x")];
    crawl_next(&mut st, &a, &vec![], &links, 2).unwrap();
    assert_eq!(st.links.len(), 1);
    for l in st.links.iter() {
        assert_ne!(l.parent_domain, l.child_domain);
    }
}

#[test]
fn page_dedup_keeps_first_title() {
    let mut st = CrawlStore::new();
    insert_initial_websites(&mut st, &vec![s("a.com")], 1);
    let a = find_by_domain(&st, &s("a.com")).unwrap();
    let pages = vec![
        page("https://a.com/p", "<head><title>One</title></head>"),
        page("https://a.com/p", "<head><title>Two</title></head>"),
    ];
    crawl_next(&mut st, &a, &pages, &vec![], 2).unwrap();
    assert_eq!(st.pages.len(), 1);
    assert_eq!(st.pages[0].title, Some(s("One")));
}

#[test]
fn failed_crawl_changes_nothing() {
    let mut st = CrawlStore::new();
    insert_initial_websites(&mut st, &vec![s("a.com")], 1);
    let a = find_by_domain(&st, &s("a.com")).unwrap();
    let pages = vec![page("https://a.com/", "<head><title>A</title></head>")];
    let bad_page = vec![page("not a url", "")];
    assert!(matches!(
        crawl_next(&mut st, &a, &bad_page, &vec![], 2),
        Err(SearchError::URLError(_))
    ));
    let bad_link = vec![s("b.com"), s("http://10.0.0.1/")];
    assert!(matches!(
        crawl_next(&mut st, &a, &pages, &bad_link, 2),
        Err(SearchError::NoDomain)
    ));
    assert_eq!(st.pages.len(), 0);
    assert_eq!(st.domains.len(), 1);
    assert_eq!(find_by_domain(&st, &s("a.com")).unwrap().indexed_at, None);
}

#[test]
fn crawl_of_unknown_domain_fails() {
    let mut st = CrawlStore::new();
    insert_initial_websites(&mut st, &vec![s("a.com")], 1);
    let mut a = find_by_domain(&st, &s("a.com")).unwrap();
    a.id = 3;
    assert!(crawl_next(&mut st, &a, &vec![], &vec![], 2).is_err());
    assert_eq!(st.domains[0].indexed_at, None);
}

#[test]
fn crawl_websites_returns_pending_batch() {
    let mut st = CrawlStore::new();
    insert_initial_websites(&mut st, &vec![s("old.com")], 1);
    let old = find_by_domain(&st, &s("old.com")).unwrap();
    set_domain_indexed(&mut st, &old, 2).unwrap();
    let batch = crawl_websites(&mut st, &vec![s("b.com"), s("old.com"), s("a.com")], 3);
    let names: Vec<String> = batch.iter().map(|d| d.domain.clone()).collect();
    assert_eq!(names, vec![s("b.com"), s("a.com")]);
    assert_eq!(st.domains.len(), 3);
}

#[test]
fn crawl_of_unparsable_domain_is_url_error() {
    let mut st = CrawlStore::new();
    insert_initial_websites(&mut st, &vec![s("bad host.com")], 1);
    let d = find_by_domain(&st, &s("bad host.com")).unwrap();
    assert!(matches!(
        crawl_next(&mut st, &d, &vec![], &vec![], 2),
        Err(SearchError::URLError(_))
    ));
    assert_eq!(st.domains[0].indexed_at, None);
}
