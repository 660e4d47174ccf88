use gandi_email::client::appended_aliases;
use gandi_email::client::removed_aliases;
use gandi_email::client::HttpMethod;
use gandi_email::dto::parse_mailbox_detail;
use gandi_email::GandiEmailAPI;

fn strings(items: &[&str]) -> Vec<String> {
    items.iter().map(|s| s.to_string()).collect()
}

#[test]
fn new_stores_the_key_and_requests_carry_it() {
    let api = GandiEmailAPI::new("SECRET-REDACTED".to_string());
    let r = api.domains_request();
    assert_eq!(r.auth_header, "Apikey SECRET-REDACTED");
}

#[test]
fn domains_request_shape() {
    let api = GandiEmailAPI::new("k".to_string());
    let r = api.domains_request();
    assert!(matches!(r.method, HttpMethod::Get));
    assert_eq!(r.url, "https://api.gandi.net/v5/domain/domains");
    assert!(r.body.is_none());
}

#[test]
fn mailboxes_request_shape() {
    let api = GandiEmailAPI::new("k".to_string());
    let r = api.mailboxes_request("example.com");
    assert!(matches!(r.method, HttpMethod::Get));
    assert_eq!(r.url, "https://api.gandi.net/v5/email/mailboxes/example.com");
    assert!(r.body.is_none());
}

#[test]
fn aliases_request_shape() {
    let api = GandiEmailAPI::new("k".to_string());
    let r = api.aliases_request("example.com", "abc");
    assert!(matches!(r.method, HttpMethod::Get));
    assert_eq!(r.url, "https://api.gandi.net/v5/email/mailboxes/example.com/abc");
    assert!(r.body.is_none());
}

#[test]
fn create_alias_appends_at_the_end() {
    let api = GandiEmailAPI::new("k".to_string());
    let r = api.create_alias_request("example.com", "abc", strings(&["x", "y"]), "z".to_string());
    assert!(matches!(r.method, HttpMethod::Patch));
    assert_eq!(r.url, "https://api.gandi.net/v5/email/mailboxes/example.com/abc");
    assert_eq!(r.body.as_deref(), Some("{\"aliases\":[\"x\",\"y\",\"z\"]}"));
}

#[test]
fn create_then_list_returns_appended_list() {
    let api = GandiEmailAPI::new("k".to_string());
    let r = api.create_alias_request("example.com", "abc", strings(&["x"]), "y".to_string());
    let stored = r.body.unwrap();
    let listed = parse_mailbox_detail(&stored).unwrap();
    assert_eq!(listed.aliases, strings(&["x", "y"]));
}

#[test]
fn create_twice_yields_duplicates() {
    let once = appended_aliases(strings(&["x"]), "z".to_string());
    let twice = appended_aliases(once, "z".to_string());
    assert_eq!(twice, strings(&["x", "z", "z"]));
}

#[test]
fn delete_removes_all_occurrences_in_order() {
    let api = GandiEmailAPI::new("k".to_string());
    let current = strings(&["x", "y", "x"]);
    let r = api.delete_alias_request("example.com", "abc", &current, &"x".to_string());
    assert!(matches!(r.method, HttpMethod::Patch));
    assert_eq!(r.body.as_deref(), Some("{\"aliases\":[\"y\"]}"));
    let listed = parse_mailbox_detail(&r.body.unwrap()).unwrap();
    assert_eq!(listed.aliases, strings(&["y"]));
}

#[test]
fn delete_absent_still_writes_unchanged_list() {
    let api = GandiEmailAPI::new("k".to_string());
    let current = strings(&["x", "y"]);
    let r = api.delete_alias_request("example.com", "abc", &current, &"q".to_string());
    assert!(matches!(r.method, HttpMethod::Patch));
    assert_eq!(r.body.as_deref(), Some("{\"aliases\":[\"x\",\"y\"]}"));
}

#[test]
fn removed_aliases_filters_every_match() {
    let out = removed_aliases(&strings(&["a", "b", "a", "c", "a"]), &"a".to_string());
    assert_eq!(out, strings(&["b", "c"]));
    let untouched = removed_aliases(&strings(&["a", "b"]), &"z".to_string());
    assert_eq!(untouched, strings(&["a", "b"]));
}
