//! The API client: it holds the credential, builds each authenticated
//! request, and computes the alias-list updates that the two write
//! operations send back.
//!
//! Every operation is one request; the transport that carries it is outside
//! the library. `create_alias` and `delete_alias` are read-modify-write: the
//! caller fetches the current list with an aliases request, hands it to the
//! update builder, and sends the returned write request. Between those two
//! requests another writer may change the remote list unseen; the write then
//! replaces that change (a documented lost-update race, not detected here).

use vstd::prelude::*;
use vstd::seq_lib::group_seq_properties;

use crate::dto::MailboxDetail;
use crate::dto::lemma_detail_roundtrip;
use crate::dto::spec_parse_mailbox_detail;
use crate::dto::encode_mailbox_detail;
use crate::dto::spec_encode_detail;

verus! {

/// The verb of one HTTP request.
#[derive(Debug, Clone, Copy, PartialEq, Eq, Structural)]
pub enum HttpMethod {
    Get,
    Patch,
}

/// One HTTP request for the transport to perform, fully determined: verb,
/// URL, authorization header value, and body where the verb carries one.
#[derive(Debug)]
pub struct HttpRequest {
    pub method: HttpMethod,
    pub url: String,
    pub auth_header: String,
    pub body: Option<String>,
}

/// The fixed base of every endpoint, version segment included.
pub open spec fn spec_api_base() -> Seq<char> {
    "https://api.gandi.net/v5"@
}

/// URL of the list-domains endpoint.
pub open spec fn spec_domains_url() -> Seq<char> {
    spec_api_base() + "/domain/domains"@
}

/// URL of the list-mailboxes endpoint of one domain.
pub open spec fn spec_mailboxes_url(domain: Seq<char>) -> Seq<char> {
    spec_api_base() + "/email/mailboxes/"@ + domain
}

/// URL of the detail resource of one mailbox.
pub open spec fn spec_mailbox_url(domain: Seq<char>, mailbox_id: Seq<char>) -> Seq<char> {
    spec_mailboxes_url(domain) + "/"@ + mailbox_id
}

/// The authorization header value carrying the API key.
pub open spec fn spec_auth_header(api_key: Seq<char>) -> Seq<char> {
    "Apikey "@ + api_key
}

/// Client for the provider's REST API. Holds the API key for the object's
/// lifetime; construction performs no validation and no network call.
#[derive(Debug)]
pub struct GandiEmailAPI {
    pub api_key: String,
}

impl GandiEmailAPI {
    /// Create a new API instance.
    pub fn new(api_key: String) -> (r: Self)
        ensures
            r.api_key@ == api_key@,
    {
        GandiEmailAPI { api_key }
    }

    fn auth_header(&self) -> (r: String)
        ensures
            r@ == spec_auth_header(self.api_key@),
    {
        let mut out: String = "Apikey ".to_owned();
        out.append(self.api_key.as_str());
        out
    }

    fn mailbox_url(&self, domain: &str, mailbox_id: &str) -> (r: String)
        ensures
            r@ == spec_mailbox_url(domain@, mailbox_id@),
    {
        let mut url: String = "https://api.gandi.net/v5".to_owned();
        url.append("/email/mailboxes/");
        url.append(domain);
        url.append("/");
        url.append(mailbox_id);
        assert(url@ =~= spec_mailbox_url(domain@, mailbox_id@));
        url
    }

    /// The request behind the list-domains operation.
    pub fn domains_request(&self) -> (r: HttpRequest)
        ensures
            r.method == HttpMethod::Get,
            r.url@ == spec_domains_url(),
            r.auth_header@ == spec_auth_header(self.api_key@),
            r.body is None,
    {
        let mut url: String = "https://api.gandi.net/v5".to_owned();
        url.append("/domain/domains");
        HttpRequest { method: HttpMethod::Get, url, auth_header: self.auth_header(), body: None }
    }

    /// The request behind the list-mailboxes operation.
    pub fn mailboxes_request(&self, domain: &str) -> (r: HttpRequest)
        ensures
            r.method == HttpMethod::Get,
            r.url@ == spec_mailboxes_url(domain@),
            r.auth_header@ == spec_auth_header(self.api_key@),
            r.body is None,
    {
        let mut url: String = "https://api.gandi.net/v5".to_owned();
        url.append("/email/mailboxes/");
        url.append(domain);
        assert(url@ =~= spec_mailboxes_url(domain@));
        HttpRequest { method: HttpMethod::Get, url, auth_header: self.auth_header(), body: None }
    }

    /// The request behind the list-aliases operation: it reads the mailbox
    /// detail resource.
    pub fn aliases_request(&self, domain: &str, mailbox_id: &str) -> (r: HttpRequest)
        ensures
            r.method == HttpMethod::Get,
            r.url@ == spec_mailbox_url(domain@, mailbox_id@),
            r.auth_header@ == spec_auth_header(self.api_key@),
            r.body is None,
    {
        HttpRequest {
            method: HttpMethod::Get,
            url: self.mailbox_url(domain, mailbox_id),
            auth_header: self.auth_header(),
            body: None,
        }
    }

    /// The write behind createAlias, given the aliases the read returned:
    /// the full current list with `alias` appended at the end. Duplicates
    /// are not checked; an alias already present is appended again.
    pub fn create_alias_request(
        &self,
        domain: &str,
        mailbox_id: &str,
        current: Vec<String>,
        alias: String,
    ) -> (r: HttpRequest)
        ensures
            r.method == HttpMethod::Patch,
            r.url@ == spec_mailbox_url(domain@, mailbox_id@),
            r.auth_header@ == spec_auth_header(self.api_key@),
            r.body matches Some(b) && b@ == spec_encode_detail(
                current.deep_view().push(alias@),
            ),
    {
        let updated = appended_aliases(current, alias);
        let detail = MailboxDetail { aliases: updated };
        let body = encode_mailbox_detail(&detail);
        HttpRequest {
            method: HttpMethod::Patch,
            url: self.mailbox_url(domain, mailbox_id),
            auth_header: self.auth_header(),
            body: Some(body),
        }
    }

    /// The write behind deleteAlias, given the aliases the read returned:
    /// the full current list with every entry equal to `alias` removed, the
    /// order of the rest kept. An absent alias still yields the write, with
    /// the list unchanged.
    pub fn delete_alias_request(
        &self,
        domain: &str,
        mailbox_id: &str,
        current: &Vec<String>,
        alias: &String,
    ) -> (r: HttpRequest)
        ensures
            r.method == HttpMethod::Patch,
            r.url@ == spec_mailbox_url(domain@, mailbox_id@),
            r.auth_header@ == spec_auth_header(self.api_key@),
            r.body matches Some(b) && b@ == spec_encode_detail(
                spec_without_alias(current.deep_view(), alias@),
            ),
    {
        let updated = removed_aliases(current, alias);
        let detail = MailboxDetail { aliases: updated };
        let body = encode_mailbox_detail(&detail);
        HttpRequest {
            method: HttpMethod::Patch,
            url: self.mailbox_url(domain, mailbox_id),
            auth_header: self.auth_header(),
            body: Some(body),
        }
    }
}

/// The list createAlias writes: `alias` appended at the end, always, with no
/// duplicate check.
pub fn appended_aliases(aliases: Vec<String>, alias: String) -> (r: Vec<String>)
    ensures
        r@ == aliases@.push(alias),
        r.deep_view() == aliases.deep_view().push(alias@),
{
    let ghost dv = aliases.deep_view();
    let ghost av = alias@;
    let mut r = aliases;
    r.push(alias);
    proof {
        assert(r.deep_view() =~= dv.push(av));
    }
    r
}

/// The alias list with every entry equal to `alias` removed.
pub open spec fn spec_without_alias(al: Seq<Seq<char>>, alias: Seq<char>) -> Seq<Seq<char>> {
    al.filter(|x: Seq<char>| x != alias)
}

/// The list deleteAlias writes: every entry equal to `alias` removed — all
/// occurrences, not just one — with the order of the rest preserved.
#[verifier::loop_isolation(false)]
pub fn removed_aliases(aliases: &Vec<String>, alias: &String) -> (r: Vec<String>)
    ensures
        r.deep_view() == spec_without_alias(aliases.deep_view(), alias@),
{
    let mut r: Vec<String> = Vec::new();
    let mut i: usize = 0;
    while i < aliases.len()
        invariant
            i <= aliases.len(),
            r.deep_view() == spec_without_alias(
                aliases.deep_view().subrange(0, i as int),
                alias@,
            ),
        decreases aliases.len() - i,
    {
        let e = &aliases[i];
        let ghost prev = r.deep_view();
        let keep = !(*e == *alias);
        if keep {
            r.push(e.clone());
        }
        proof {
            reveal(Seq::filter);
            let dv = aliases.deep_view();
            let longer = dv.subrange(0, i + 1);
            assert(longer.drop_last() =~= dv.subrange(0, i as int));
            assert(longer.last() == e@);
            if keep {
                assert(r.deep_view() =~= prev.push(e@));
            }
            assert(r.deep_view() == spec_without_alias(longer, alias@));
        }
        i = i + 1;
    }
    proof {
        assert(aliases.deep_view().subrange(0, aliases.len() as int) =~= aliases.deep_view());
    }
    r
}

/// Creating the same alias twice duplicates it: after two appends of one
/// alias the list ends in two identical entries and nothing was removed or
/// reordered.
pub proof fn lemma_create_alias_twice(al: Seq<Seq<char>>, alias: Seq<char>)
    ensures
        al.push(alias).push(alias) == al + seq![alias, alias],
        al.push(alias).push(alias).len() == al.len() + 2,
{
    assert(al.push(alias).push(alias) =~= al + seq![alias, alias]);
}

/// Deleting an alias removes every occurrence: no entry equal to it remains,
/// and the surviving entries are exactly the other entries, in their order.
pub proof fn lemma_delete_removes_all(al: Seq<Seq<char>>, alias: Seq<char>)
    ensures
        forall|i: int|
            0 <= i < spec_without_alias(al, alias).len() ==> #[trigger] spec_without_alias(
                al,
                alias,
            )[i] != alias,
        forall|i: int|
            0 <= i < al.len() && #[trigger] al[i] != alias ==> spec_without_alias(
                al,
                alias,
            ).contains(al[i]),
{
    broadcast use group_seq_properties;

    let pred = |x: Seq<char>| x != alias;
    assert forall|i: int| 0 <= i < al.filter(pred).len() implies al.filter(pred)[i]
        != alias by {
        al.lemma_filter_pred(pred, i);
    }
    assert forall|i: int| 0 <= i < al.len() && al[i] != alias implies al.filter(pred).contains(
        al[i],
    ) by {
        al.lemma_filter_contains(pred, i);
    }
}

/// Deleting an absent alias leaves the list unchanged; the write is still
/// built and sent, carrying the same list back.
pub proof fn lemma_delete_absent_unchanged(al: Seq<Seq<char>>, alias: Seq<char>)
    requires
        !al.contains(alias),
    ensures
        spec_without_alias(al, alias) == al,
    decreases al.len(),
{
    reveal(Seq::filter);
    if al.len() == 0 {
        assert(spec_without_alias(al, alias) =~= al);
    } else {
        let head = al.drop_last();
        assert(!head.contains(alias)) by {
            if head.contains(alias) {
                let i = choose|i: int| 0 <= i < head.len() && head[i] == alias;
                assert(al[i] == alias);
            }
        }
        lemma_delete_absent_unchanged(head, alias);
        assert(al[al.len() - 1] != alias) by {
            if al.last() == alias {
                assert(al.contains(alias));
            }
        }
        assert(spec_without_alias(al, alias) =~= al);
    }
}

/// createAlias followed by a read of the state its write produced: the read
/// decodes to the original list with the alias appended at the end, whether
/// or not it was already present.
pub proof fn lemma_create_then_list(al: Seq<Seq<char>>, alias: Seq<char>)
    ensures
        spec_parse_mailbox_detail(spec_encode_detail(al.push(alias))) == Some(al.push(alias)),
{
    lemma_detail_roundtrip(al.push(alias));
}

/// deleteAlias followed by a read of the state its write produced: the read
/// decodes to the list with every occurrence of the alias removed.
pub proof fn lemma_delete_then_list(al: Seq<Seq<char>>, alias: Seq<char>)
    ensures
        spec_parse_mailbox_detail(spec_encode_detail(spec_without_alias(al, alias))) == Some(
            spec_without_alias(al, alias),
        ),
{
    lemma_detail_roundtrip(spec_without_alias(al, alias));
}

} // verus!
