use search_crawler::urls::parse_url;

#[test]
fn absolute_url_kept() {
    let p = parse_url("https://example.com/a?b=1").unwrap();
    assert_eq!(p.text, "https://example.com/a?b=1");
    assert_eq!(p.domain, Some(String::from("example.com")));
}

#[test]
fn bare_domain_gets_https() {
    let p = parse_url("example.com").unwrap();
    assert_eq!(p.text, "https://example.com/");
    assert_eq!(p.domain, Some(String::from("example.com")));
}

#[test]
fn ip_host_has_no_domain() {
    let p = parse_url("http://127.0.0.1/").unwrap();
    assert_eq!(p.domain, None);
}

#[test]
fn unparsable_url_is_error() {
    assert!(parse_url("exa mple.com").is_err());
    assert!(parse_url("").is_err());
}
