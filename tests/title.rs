use search_crawler::text::{extract_page_title, split_once_at};

#[test]
fn title_from_head() {
    let html = "<html><head><title>Example</title></head><body></body></html>";
    assert_eq!(extract_page_title(html), Some(String::from("Example")));
}

#[test]
fn title_missing_head_is_none() {
    let html = "<html><title>Example</title><body></body></html>";
    assert_eq!(extract_page_title(html), None);
}

#[test]
fn title_missing_head_close_is_none() {
    let html = "<html><head><title>Example</title><body></body></html>";
    assert_eq!(extract_page_title(html), None);
}

#[test]
fn title_head_without_title_is_none() {
    let html = "<html><head><meta charset=\"utf-8\"></head><body><title>Late</title></body></html>";
    assert_eq!(extract_page_title(html), None);
}

#[test]
fn title_first_of_several() {
    let html = "<head><title>First</title><title>Second</title></head>";
    assert_eq!(extract_page_title(html), Some(String::from("First")));
}

#[test]
fn title_kept_verbatim() {
    let html = "<head><title>  A &amp; B </title></head>";
    assert_eq!(extract_page_title(html), Some(String::from("  A &amp; B ")));
}

#[test]
fn title_empty() {
    let html = "<head><title></title></head>";
    assert_eq!(extract_page_title(html), Some(String::new()));
}

#[test]
fn title_non_ascii() {
    let html = "<head><title>Grüße – 日本</title></head>";
    assert_eq!(extract_page_title(html), Some(String::from("Grüße – 日本")));
}

#[test]
fn title_unclosed_is_none() {
    let html = "<head><title>Open</head>";
    assert_eq!(extract_page_title(html), None);
}

#[test]
fn split_once_first_match() {
    assert_eq!(split_once_at("a-b-c", "-"), Some(("a", "b-c")));
    assert_eq!(split_once_at("abc", "-"), None);
    assert_eq!(split_once_at("", "x"), None);
    assert_eq!(split_once_at("xy", "xy"), Some(("", "")));
}
