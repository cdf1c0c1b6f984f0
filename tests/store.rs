use search_crawler::error::{SearchError, StoreError};
use search_crawler::store::{
    find_by_domain, find_non_indexed, find_oldest_not_indexed, find_website_page_by_url,
    insert_domain_link, insert_domain_to_index, insert_website_page, insert_website_page_if_absent,
    set_domain_indexed, CrawlStore,
};

fn s(v: &str) -> String {
    String::from(v)
}

fn names(ds: &[search_crawler::models::Domain]) -> Vec<String> {
    ds.iter().map(|d| d.domain.clone()).collect()
}

#[test]
fn frontier_oldest_first() {
    let mut st = CrawlStore::new();
    let c = insert_domain_to_index(&mut st, s("c.com"), 30).unwrap();
    let a = insert_domain_to_index(&mut st, s("a.com"), 10).unwrap();
    let _b = insert_domain_to_index(&mut st, s("b.com"), 20).unwrap();
    assert_eq!(names(&find_non_indexed(&st)), vec![s("a.com"), s("b.com"), s("c.com")]);
    assert_eq!(find_oldest_not_indexed(&st).unwrap().domain, "a.com");
    let marked = set_domain_indexed(&mut st, &a, 40).unwrap();
    assert_eq!(marked.indexed_at, Some(40));
    assert_eq!(marked.added_at, 10);
    assert_eq!(names(&find_non_indexed(&st)), vec![s("b.com"), s("c.com")]);
    assert_eq!(c.indexed_at, None);
}

#[test]
fn frontier_equal_times_keep_insertion_order() {
    let mut st = CrawlStore::new();
    insert_domain_to_index(&mut st, s("x.com"), 5).unwrap();
    insert_domain_to_index(&mut st, s("y.com"), 5).unwrap();
    assert_eq!(names(&find_non_indexed(&st)), vec![s("x.com"), s("y.com")]);
}

#[test]
fn empty_frontier() {
    let st = CrawlStore::new();
    assert!(find_non_indexed(&st).is_empty());
    assert!(find_oldest_not_indexed(&st).is_none());
}

#[test]
fn duplicate_domain_refused() {
    let mut st = CrawlStore::new();
    insert_domain_to_index(&mut st, s("a.com"), 1).unwrap();
    let r = insert_domain_to_index(&mut st, s("a.com"), 2);
    assert!(matches!(r, Err(SearchError::Store(StoreError::UniqueViolation))));
    assert_eq!(st.domains.len(), 1);
    assert_eq!(find_by_domain(&st, &s("a.com")).unwrap().added_at, 1);
    assert!(find_by_domain(&st, &s("b.com")).is_none());
}

#[test]
fn mark_unknown_domain_not_found() {
    let mut st = CrawlStore::new();
    let a = insert_domain_to_index(&mut st, s("a.com"), 1).unwrap();
    let mut ghost = a.duplicate();
    ghost.id = 7;
    assert!(matches!(
        set_domain_indexed(&mut st, &ghost, 2),
        Err(SearchError::Store(StoreError::RowNotFound))
    ));
}

#[test]
fn page_constraints() {
    let mut st = CrawlStore::new();
    let a = insert_domain_to_index(&mut st, s("a.com"), 1).unwrap();
    let p = insert_website_page(&mut st, &a, Some(s("T")), s("https://a.com/"), 2).unwrap();
    assert_eq!(p.id, 0);
    assert_eq!(p.domain, a.id);
    let again = insert_website_page(&mut st, &a, Some(s("U")), s("https://a.com/"), 3);
    assert!(matches!(again, Err(SearchError::Store(StoreError::UniqueViolation))));
    let found = find_website_page_by_url(&st, &s("https://a.com/")).unwrap();
    assert_eq!(found.title, Some(s("T")));
    let mut other = a.duplicate();
    other.id = 9;
    let orphan = insert_website_page(&mut st, &other, None, s("https://b.com/"), 3);
    assert!(matches!(orphan, Err(SearchError::Store(StoreError::ForeignKeyViolation))));
}

#[test]
fn link_constraints() {
    let mut st = CrawlStore::new();
    let a = insert_domain_to_index(&mut st, s("a.com"), 1).unwrap();
    let b = insert_domain_to_index(&mut st, s("b.com"), 2).unwrap();
    let l = insert_domain_link(&mut st, &a, &b).unwrap();
    assert_eq!((l.parent_domain, l.child_domain), (a.id, b.id));
    assert!(matches!(
        insert_domain_link(&mut st, &a, &a),
        Err(SearchError::Store(StoreError::SelfLink))
    ));
    let mut c = b.duplicate();
    c.id = 5;
    assert!(matches!(
        insert_domain_link(&mut st, &a, &c),
        Err(SearchError::Store(StoreError::ForeignKeyViolation))
    ));
    assert_eq!(st.links.len(), 1);
}

#[test]
fn page_insert_if_absent_skips_known_url() {
    let mut st = CrawlStore::new();
    let a = insert_domain_to_index(&mut st, s("a.com"), 1).unwrap();
    let first = insert_website_page_if_absent(&mut st, &a, Some(s("T")), s("https://a.com/"), 2).unwrap();
    assert_eq!(first.unwrap().title, Some(s("T")));
    let second = insert_website_page_if_absent(&mut st, &a, Some(s("U")), s("https://a.com/"), 3).unwrap();
    assert!(second.is_none());
    assert_eq!(st.pages.len(), 1);
    assert_eq!(st.pages[0].title, Some(s("T")));
    let mut other = a.duplicate();
    other.id = 4;
    assert!(matches!(
        insert_website_page_if_absent(&mut st, &other, None, s("https://b.com/"), 3),
        Err(SearchError::Store(StoreError::ForeignKeyViolation))
    ));
}
