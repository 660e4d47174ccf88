use gandi_email::dto::encode_mailbox_detail;
use gandi_email::dto::parse_domains;
use gandi_email::dto::parse_mailbox_detail;
use gandi_email::dto::parse_mailboxes;
use gandi_email::dto::MailboxDetail;

fn detail(aliases: &[&str]) -> MailboxDetail {
    MailboxDetail { aliases: aliases.iter().map(|a| a.to_string()).collect() }
}

#[test]
fn domains_are_projected_in_server_order() {
    let body = "[{\"fqdn\":\"example.com\"},{\"fqdn\":\"beta.org\"},{\"fqdn\":\"a.net\"}]";
    let got = parse_domains(body).unwrap();
    assert_eq!(got, vec!["example.com".to_string(), "beta.org".to_string(), "a.net".to_string()]);
}

#[test]
fn domains_empty_array() {
    assert_eq!(parse_domains("[]").unwrap(), Vec::<String>::new());
    assert_eq!(parse_domains(" [ ] ").unwrap(), Vec::<String>::new());
}

#[test]
fn domains_accept_whitespace() {
    let body = " [ {\"fqdn\" : \"example.com\"} ,\n {\"fqdn\":\"b.org\"} ] ";
    let got = parse_domains(body).unwrap();
    assert_eq!(got, vec!["example.com".to_string(), "b.org".to_string()]);
}

#[test]
fn domains_reject_error_payload() {
    assert!(parse_domains("{\"code\":401,\"message\":\"unauthorized\"}").is_none());
    assert!(parse_domains("").is_none());
    assert!(parse_domains("[{\"fqdn\":1}]").is_none());
    assert!(parse_domains("[{\"name\":\"x\"}]").is_none());
    assert!(parse_domains("[{\"fqdn\":\"x\"}").is_none());
    assert!(parse_domains("[{\"fqdn\":\"x\"}]extra").is_none());
}

#[test]
fn mailboxes_are_decoded() {
    let body = "[{\"address\":\"admin@example.com\",\"id\":\"abc\",\"alias_count\":2},\
                {\"address\":\"info@example.com\",\"id\":\"def\",\"alias_count\":0}]";
    let got = parse_mailboxes(body).unwrap();
    assert_eq!(got.len(), 2);
    assert_eq!(got[0].address, "admin@example.com");
    assert_eq!(got[0].id, "abc");
    assert_eq!(got[0].alias_count, 2);
    assert_eq!(got[1].address, "info@example.com");
    assert_eq!(got[1].id, "def");
    assert_eq!(got[1].alias_count, 0);
}

#[test]
fn mailboxes_alias_count_bounds() {
    let max = "[{\"address\":\"a@x\",\"id\":\"i\",\"alias_count\":4294967295}]";
    assert_eq!(parse_mailboxes(max).unwrap()[0].alias_count, u32::MAX);
    let over = "[{\"address\":\"a@x\",\"id\":\"i\",\"alias_count\":4294967296}]";
    assert!(parse_mailboxes(over).is_none());
    let leading_zero = "[{\"address\":\"a@x\",\"id\":\"i\",\"alias_count\":01}]";
    assert!(parse_mailboxes(leading_zero).is_none());
}

#[test]
fn mailboxes_reject_error_payload() {
    assert!(parse_mailboxes("{\"status\":\"error\"}").is_none());
    assert!(parse_mailboxes("[{\"address\":\"a@x\",\"id\":\"i\"}]").is_none());
}

#[test]
fn detail_aliases_are_decoded_in_order() {
    let got = parse_mailbox_detail("{\"aliases\":[\"x\",\"y\"]}").unwrap();
    assert_eq!(got.aliases, vec!["x".to_string(), "y".to_string()]);
    let empty = parse_mailbox_detail("{\"aliases\":[]}").unwrap();
    assert_eq!(empty.aliases, Vec::<String>::new());
}

#[test]
fn detail_decodes_escapes() {
    let got = parse_mailbox_detail("{\"aliases\":[\"a\\\"b\",\"c\\\\d\",\"e\\nf\"]}").unwrap();
    assert_eq!(got.aliases, vec!["a\"b".to_string(), "c\\d".to_string(), "e\nf".to_string()]);
    let uni = parse_mailbox_detail("{\"aliases\":[\"\\u0041\\u0009\"]}").unwrap();
    assert_eq!(uni.aliases, vec!["A\t".to_string()]);
}

#[test]
fn detail_rejects_bad_bodies() {
    assert!(parse_mailbox_detail("{\"code\":404,\"object\":\"mailbox\"}").is_none());
    assert!(parse_mailbox_detail("{\"aliases\":[\"x\"]").is_none());
    assert!(parse_mailbox_detail("{\"aliases\":[\"x\"]}}").is_none());
    assert!(parse_mailbox_detail("{\"aliases\":[\"\\q\"]}").is_none());
    assert!(parse_mailbox_detail("{\"aliases\":[\"\\uD800\"]}").is_none());
    assert!(parse_mailbox_detail("{\"aliases\":[\"a\u{1}b\"]}").is_none());
    assert!(parse_mailbox_detail("[\"x\"]").is_none());
}

#[test]
fn encode_detail_exact_bytes() {
    assert_eq!(encode_mailbox_detail(&detail(&["x", "y"])), "{\"aliases\":[\"x\",\"y\"]}");
    assert_eq!(encode_mailbox_detail(&detail(&[])), "{\"aliases\":[]}");
    assert_eq!(encode_mailbox_detail(&detail(&["one"])), "{\"aliases\":[\"one\"]}");
}

#[test]
fn encode_detail_escapes() {
    assert_eq!(
        encode_mailbox_detail(&detail(&["a\"b\\c"])),
        "{\"aliases\":[\"a\\\"b\\\\c\"]}"
    );
    assert_eq!(
        encode_mailbox_detail(&detail(&["l1\nl2\t\r"])),
        "{\"aliases\":[\"l1\\nl2\\t\\r\"]}"
    );
    assert_eq!(
        encode_mailbox_detail(&detail(&["\u{1}\u{1f}"])),
        "{\"aliases\":[\"\\u0001\\u001f\"]}"
    );
}

#[test]
fn encode_then_parse_round_trips() {
    let cases: Vec<Vec<&str>> = vec![
        vec![],
        vec!["x"],
        vec!["x", "y", "x"],
        vec!["wei\u{fc}rd@ex.com", "a\"b", "c\\d", "tab\there"],
    ];
    for case in cases {
        let d = detail(&case);
        let body = encode_mailbox_detail(&d);
        let back = parse_mailbox_detail(&body).unwrap();
        assert_eq!(back.aliases, d.aliases);
    }
}

#[test]
fn members_in_any_order_and_extras_ignored() {
    let got = parse_mailbox_detail("{\"x\":1,\"aliases\":[]}").unwrap();
    assert_eq!(got.aliases, Vec::<String>::new());
    let body = "[{\"id\":\"i\",\"alias_count\":3,\"address\":\"a@x\",\"href\":\"h\"}]";
    let mbs = parse_mailboxes(body).unwrap();
    assert_eq!(mbs[0].address, "a@x");
    assert_eq!(mbs[0].id, "i");
    assert_eq!(mbs[0].alias_count, 3);
    let ds = parse_domains("[{\"href\":\"u\",\"fqdn\":\"example.com\"}]").unwrap();
    assert_eq!(ds, vec!["example.com".to_string()]);
}

#[test]
fn unknown_members_skip_any_value() {
    let body = "{\"meta\":{\"a\":[1,-2.5e3,{\"b\":null}],\"ok\":true,\"no\":false},\
                \"aliases\":[\"x\"],\"z\":\"s\"}";
    assert_eq!(parse_mailbox_detail(body).unwrap().aliases, vec!["x".to_string()]);
    assert!(parse_mailbox_detail("{\"bad\":01,\"aliases\":[]}").is_none());
    assert!(parse_mailbox_detail("{\"bad\":tru,\"aliases\":[]}").is_none());
}

#[test]
fn duplicate_known_member_rejected() {
    assert!(parse_mailbox_detail("{\"aliases\":[],\"aliases\":[]}").is_none());
    assert!(parse_domains("[{\"fqdn\":\"a\",\"fqdn\":\"b\"}]").is_none());
}

#[test]
fn missing_known_member_rejected() {
    assert!(parse_mailbox_detail("{}").is_none());
    assert!(parse_mailbox_detail("{\"other\":1}").is_none());
    assert!(parse_mailboxes("[{\"address\":\"a@x\",\"id\":\"i\",\"extra\":1}]").is_none());
}

#[test]
fn unicode_escapes_decode() {
    let got = parse_mailbox_detail("{\"aliases\":[\"\\u00fc\"]}").unwrap();
    assert_eq!(got.aliases, vec!["\u{fc}".to_string()]);
    let pair = parse_mailbox_detail("{\"aliases\":[\"\\uD83D\\ude00\"]}").unwrap();
    assert_eq!(pair.aliases, vec!["\u{1f600}".to_string()]);
    assert!(parse_mailbox_detail("{\"aliases\":[\"\\ud800x\"]}").is_none());
    assert!(parse_mailbox_detail("{\"aliases\":[\"\\udc00\"]}").is_none());
}
