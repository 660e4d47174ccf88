//! The plain data shapes the remote API exchanges, and the readers that
//! decode each response document into them.
//!
//! Each reader accepts exactly the document shape its spec-level parser
//! describes: a decoded value is returned if and only if the whole body is
//! such a document, so an error payload or a malformed body always fails,
//! whatever HTTP status it came with. Object members may come in any order,
//! unrecognized members are skipped over whole, and JSON whitespace is
//! allowed between tokens, as the original service's decoder had it.

use vstd::prelude::*;

use crate::json::chars_of;
use crate::json::parse_string;
use crate::json::parse_u32;
use crate::json::skip_ws;
use crate::json::spec_parse_string;
use crate::json::skip_value;
use crate::json::spec_parse_u32;
use crate::json::spec_skip_value;
use crate::json::spec_skip_ws;

verus! {

/// One mailbox, as the list-mailboxes call returns it.
#[derive(Debug, Clone, PartialEq, Eq)]
pub struct Mailbox {
    pub address: String,
    pub id: String,
    pub alias_count: u32,
}

/// The mathematical value of one mailbox record.
pub ghost struct MailboxV {
    pub address: Seq<char>,
    pub id: Seq<char>,
    pub alias_count: u32,
}

impl View for Mailbox {
    type V = MailboxV;

    open spec fn view(&self) -> MailboxV {
        MailboxV { address: self.address@, id: self.id@, alias_count: self.alias_count }
    }
}

impl DeepView for Mailbox {
    type V = MailboxV;

    open spec fn deep_view(&self) -> MailboxV {
        self.view()
    }
}

/// The mutable detail of one mailbox: its alias list. This is the sole unit
/// of read-modify-write; a write replaces the remote list wholesale.
#[derive(Debug, Clone, PartialEq, Eq)]
pub struct MailboxDetail {
    pub aliases: Vec<String>,
}

impl View for MailboxDetail {
    type V = Seq<Seq<char>>;

    open spec fn view(&self) -> Seq<Seq<char>> {
        self.aliases.deep_view()
    }
}

/// The members of a domain record, read from just after `{` or a comma.
/// Members may come in any order; `fqdn` must appear exactly once, as a
/// string, and unrecognized members are skipped with any well-formed value.
pub open spec fn spec_parse_fqdn_members(s: Seq<char>, i: int, acc: Option<Seq<char>>) -> Option<
    (Seq<char>, int),
>
    decreases s.len() - i,
{
    if 0 <= i <= s.len() {
        let j = spec_skip_ws(s, i);
        match spec_parse_string(s, j) {
            Some((k, j2)) => {
                let j3 = spec_skip_ws(s, j2);
                if j3 < s.len() && s[j3] == ':' {
                    let p = spec_skip_ws(s, j3 + 1);
                    if i < p <= s.len() {
                        let stepped: Option<(Option<Seq<char>>, int)> = if k == "fqdn"@ {
                            if acc is Some {
                                None
                            } else {
                                match spec_parse_string(s, p) {
                                    Some((v, q)) => Some((Some(v), q)),
                                    None => None,
                                }
                            }
                        } else {
                            match spec_skip_value(s, p) {
                                Some(q) => Some((acc, q)),
                                None => None,
                            }
                        };
                        match stepped {
                            Some((acc2, q)) => {
                                let r = spec_skip_ws(s, q);
                                if i < r && r < s.len() {
                                    if s[r] == '}' {
                                        match acc2 {
                                            Some(v) => Some((v, r + 1)),
                                            None => None,
                                        }
                                    } else if s[r] == ',' {
                                        spec_parse_fqdn_members(s, r + 1, acc2)
                                    } else {
                                        None
                                    }
                                } else {
                                    None
                                }
                            },
                            None => None,
                        }
                    } else {
                        None
                    }
                } else {
                    None
                }
            },
            None => None,
        }
    } else {
        None
    }
}

/// A domain record: an object whose `fqdn` member is a string; other members
/// are ignored.
pub open spec fn spec_parse_fqdn_obj(s: Seq<char>, i: int) -> Option<(Seq<char>, int)> {
    if 0 <= i < s.len() && s[i] == '{' {
        spec_parse_fqdn_members(s, i + 1, None)
    } else {
        None
    }
}

fn parse_fqdn_members(s: &Vec<char>, i: usize, acc: Option<String>) -> (r: Option<
    (String, usize),
>)
    requires
        i <= s.len(),
    ensures
        match r {
            Some((v, j)) => i < j <= s.len() && spec_parse_fqdn_members(
                s@,
                i as int,
                acc.deep_view(),
            ) == Some::<(Seq<char>, int)>((v@, j as int)),
            None => spec_parse_fqdn_members(s@, i as int, acc.deep_view()) is None,
        },
    decreases s.len() - i,
{
    let j = skip_ws(s, i);
    let (k, j2) = match parse_string(s, j) {
        Some(x) => x,
        None => {
            return None;
        },
    };
    let j3 = skip_ws(s, j2);
    if !(j3 < s.len() && s[j3] == ':') {
        return None;
    }
    let p = skip_ws(s, j3 + 1);
    let expected: String = "fqdn".to_owned();
    let step: Option<(Option<String>, usize)> = if k == expected {
        if acc.is_some() {
            None
        } else {
            match parse_string(s, p) {
                Some((v, q)) => Some((Some(v), q)),
                None => None,
            }
        }
    } else {
        match skip_value(s, p) {
            Some(q) => Some((acc, q)),
            None => None,
        }
    };
    let (acc2, q) = match step {
        Some(x) => x,
        None => {
            return None;
        },
    };
    let r = skip_ws(s, q);
    if !(r < s.len()) {
        return None;
    }
    if s[r] == '}' {
        match acc2 {
            Some(v) => Some((v, r + 1)),
            None => None,
        }
    } else if s[r] == ',' {
        parse_fqdn_members(s, r + 1, acc2)
    } else {
        None
    }
}

fn parse_fqdn_obj(s: &Vec<char>, i: usize) -> (r: Option<(String, usize)>)
    requires
        i <= s.len(),
    ensures
        match r {
            Some((v, j)) => i < j <= s.len() && spec_parse_fqdn_obj(s@, i as int) == Some::<
                (Seq<char>, int),
            >((v@, j as int)),
            None => spec_parse_fqdn_obj(s@, i as int) is None,
        },
{
    if i >= s.len() || s[i] != '{' {
        return None;
    }
    parse_fqdn_members(s, i + 1, None)
}

/// The elements of a domains document after the first one, gathered onto the
/// elements already read.
pub open spec fn spec_parse_domains_rest(s: Seq<char>, i: int, acc: Seq<Seq<char>>) -> Option<
    (Seq<Seq<char>>, int),
>
    decreases s.len() - i,
{
    let j = spec_skip_ws(s, i);
    if j < s.len() && s[j] == ']' {
        Some((acc, j + 1))
    } else if j < s.len() && s[j] == ',' {
        match spec_parse_fqdn_obj(s, spec_skip_ws(s, j + 1)) {
            Some((e, m)) => if i < m <= s.len() {
                spec_parse_domains_rest(s, m, acc.push(e))
            } else {
                None
            },
            None => None,
        }
    } else {
        None
    }
}

/// A whole domains document: an array of domain records and nothing more.
/// The result is the sequence of their `fqdn` fields, in document order.
pub open spec fn spec_parse_domains(s: Seq<char>) -> Option<Seq<Seq<char>>> {
    let i0 = spec_skip_ws(s, 0);
    if i0 < s.len() && s[i0] == '[' {
        let j = spec_skip_ws(s, i0 + 1);
        let parsed = if j < s.len() && s[j] == ']' {
            Some((Seq::<Seq<char>>::empty(), j + 1))
        } else {
            match spec_parse_fqdn_obj(s, j) {
                Some((e, m)) => spec_parse_domains_rest(s, m, seq![e]),
                None => None,
            }
        };
        match parsed {
            Some((es, k)) => if spec_skip_ws(s, k) == s.len() {
                Some(es)
            } else {
                None
            },
            None => None,
        }
    } else {
        None
    }
}

/// Decode a list-domains response body: exactly the `fqdn` field of each
/// element, in document order. Returns nothing if and only if the body is
/// not a domains document.
#[verifier::loop_isolation(false)]
pub fn parse_domains(body: &str) -> (r: Option<Vec<String>>)
    ensures
        match r {
            Some(v) => spec_parse_domains(body@) == Some(v.deep_view()),
            None => spec_parse_domains(body@) is None,
        },
{
    let s = chars_of(body);
    let i0 = skip_ws(&s, 0);
    if i0 >= s.len() || s[i0] != '[' {
        return None;
    }
    let j = skip_ws(&s, i0 + 1);
    if j < s.len() && s[j] == ']' {
        let k = skip_ws(&s, j + 1);
        if k == s.len() {
            let out: Vec<String> = Vec::new();
            assert(out.deep_view() =~= Seq::<Seq<char>>::empty());
            return Some(out);
        } else {
            return None;
        }
    }
    let (first, m) = match parse_fqdn_obj(&s, j) {
        Some(x) => x,
        None => {
            return None;
        },
    };
    let mut out: Vec<String> = Vec::new();
    out.push(first);
    assert(out.deep_view() =~= seq![first@]);
    let mut cur: usize = m;
    loop
        invariant
            cur <= s.len(),
            spec_parse_domains_rest(s@, m as int, seq![first@]) == spec_parse_domains_rest(
                s@,
                cur as int,
                out.deep_view(),
            ),
        decreases s.len() - cur,
    {
        let j2 = skip_ws(&s, cur);
        if j2 < s.len() && s[j2] == ']' {
            let k = skip_ws(&s, j2 + 1);
            if k == s.len() {
                return Some(out);
            } else {
                return None;
            }
        }
        if !(j2 < s.len() && s[j2] == ',') {
            return None;
        }
        let p = skip_ws(&s, j2 + 1);
        match parse_fqdn_obj(&s, p) {
            Some((e, m2)) => {
                let ghost prev = out.deep_view();
                out.push(e);
                assert(out.deep_view() =~= prev.push(e@));
                cur = m2;
            },
            None => {
                return None;
            },
        }
    }
}

} // verus!

use vstd::prelude::*;

verus! {

/// The members of a mailbox record, read from just after `{` or a comma.
/// Members may come in any order; `address` and `id` must appear exactly
/// once as strings and `alias_count` exactly once as an unsigned number;
/// unrecognized members are skipped with any well-formed value.
pub open spec fn spec_parse_mailbox_members(
    s: Seq<char>,
    i: int,
    addr: Option<Seq<char>>,
    idv: Option<Seq<char>>,
    cnt: Option<u32>,
) -> Option<(MailboxV, int)>
    decreases s.len() - i,
{
    if 0 <= i <= s.len() {
        let j = spec_skip_ws(s, i);
        match spec_parse_string(s, j) {
            Some((k, j2)) => {
                let j3 = spec_skip_ws(s, j2);
                if j3 < s.len() && s[j3] == ':' {
                    let p = spec_skip_ws(s, j3 + 1);
                    if i < p <= s.len() {
                        let stepped: Option<
                            (Option<Seq<char>>, Option<Seq<char>>, Option<u32>, int),
                        > = if k == "address"@ {
                            if addr is Some {
                                None
                            } else {
                                match spec_parse_string(s, p) {
                                    Some((v, q)) => Some((Some(v), idv, cnt, q)),
                                    None => None,
                                }
                            }
                        } else if k == "id"@ {
                            if idv is Some {
                                None
                            } else {
                                match spec_parse_string(s, p) {
                                    Some((v, q)) => Some((addr, Some(v), cnt, q)),
                                    None => None,
                                }
                            }
                        } else if k == "alias_count"@ {
                            if cnt is Some {
                                None
                            } else {
                                match spec_parse_u32(s, p) {
                                    Some((n, q)) => Some((addr, idv, Some(n), q)),
                                    None => None,
                                }
                            }
                        } else {
                            match spec_skip_value(s, p) {
                                Some(q) => Some((addr, idv, cnt, q)),
                                None => None,
                            }
                        };
                        match stepped {
                            Some((a2, i2, c2, q)) => {
                                let r = spec_skip_ws(s, q);
                                if i < r && r < s.len() {
                                    if s[r] == '}' {
                                        match (a2, i2, c2) {
                                            (Some(av), Some(iv), Some(cv)) => Some(
                                                (
                                                    MailboxV {
                                                        address: av,
                                                        id: iv,
                                                        alias_count: cv,
                                                    },
                                                    r + 1,
                                                ),
                                            ),
                                            _ => None,
                                        }
                                    } else if s[r] == ',' {
                                        spec_parse_mailbox_members(s, r + 1, a2, i2, c2)
                                    } else {
                                        None
                                    }
                                } else {
                                    None
                                }
                            },
                            None => None,
                        }
                    } else {
                        None
                    }
                } else {
                    None
                }
            },
            None => None,
        }
    } else {
        None
    }
}

/// A mailbox record: an object whose `address`, `id` and `alias_count`
/// members give the mailbox; other members are ignored.
pub open spec fn spec_parse_mailbox_obj(s: Seq<char>, i: int) -> Option<(MailboxV, int)> {
    if 0 <= i < s.len() && s[i] == '{' {
        spec_parse_mailbox_members(s, i + 1, None, None, None)
    } else {
        None
    }
}

fn parse_mailbox_members(
    s: &Vec<char>,
    i: usize,
    addr: Option<String>,
    idv: Option<String>,
    cnt: Option<u32>,
) -> (r: Option<(Mailbox, usize)>)
    requires
        i <= s.len(),
    ensures
        match r {
            Some((v, j)) => i < j <= s.len() && spec_parse_mailbox_members(
                s@,
                i as int,
                addr.deep_view(),
                idv.deep_view(),
                cnt,
            ) == Some::<(MailboxV, int)>((v@, j as int)),
            None => spec_parse_mailbox_members(
                s@,
                i as int,
                addr.deep_view(),
                idv.deep_view(),
                cnt,
            ) is None,
        },
    decreases s.len() - i,
{
    let j = skip_ws(s, i);
    let (k, j2) = match parse_string(s, j) {
        Some(x) => x,
        None => {
            return None;
        },
    };
    let j3 = skip_ws(s, j2);
    if !(j3 < s.len() && s[j3] == ':') {
        return None;
    }
    let p = skip_ws(s, j3 + 1);
    let key_addr: String = "address".to_owned();
    let key_id: String = "id".to_owned();
    let key_cnt: String = "alias_count".to_owned();
    let step: Option<(Option<String>, Option<String>, Option<u32>, usize)> = if k == key_addr {
        if addr.is_some() {
            None
        } else {
            match parse_string(s, p) {
                Some((v, q)) => Some((Some(v), idv, cnt, q)),
                None => None,
            }
        }
    } else if k == key_id {
        if idv.is_some() {
            None
        } else {
            match parse_string(s, p) {
                Some((v, q)) => Some((addr, Some(v), cnt, q)),
                None => None,
            }
        }
    } else if k == key_cnt {
        if cnt.is_some() {
            None
        } else {
            match parse_u32(s, p) {
                Some((n, q)) => Some((addr, idv, Some(n), q)),
                None => None,
            }
        }
    } else {
        match skip_value(s, p) {
            Some(q) => Some((addr, idv, cnt, q)),
            None => None,
        }
    };
    let (a2, i2, c2, q) = match step {
        Some(x) => x,
        None => {
            return None;
        },
    };
    let r = skip_ws(s, q);
    if !(r < s.len()) {
        return None;
    }
    if s[r] == '}' {
        match (a2, i2, c2) {
            (Some(av), Some(iv), Some(cv)) => Some(
                (Mailbox { address: av, id: iv, alias_count: cv }, r + 1),
            ),
            _ => None,
        }
    } else if s[r] == ',' {
        parse_mailbox_members(s, r + 1, a2, i2, c2)
    } else {
        None
    }
}

fn parse_mailbox_obj(s: &Vec<char>, i: usize) -> (r: Option<(Mailbox, usize)>)
    requires
        i <= s.len(),
    ensures
        match r {
            Some((v, j)) => i < j <= s.len() && spec_parse_mailbox_obj(s@, i as int) == Some::<
                (MailboxV, int),
            >((v@, j as int)),
            None => spec_parse_mailbox_obj(s@, i as int) is None,
        },
{
    if i >= s.len() || s[i] != '{' {
        return None;
    }
    parse_mailbox_members(s, i + 1, None, None, None)
}

/// The elements of a mailboxes document after the first one.
pub open spec fn spec_parse_mailboxes_rest(s: Seq<char>, i: int, acc: Seq<MailboxV>) -> Option<
    (Seq<MailboxV>, int),
>
    decreases s.len() - i,
{
    let j = spec_skip_ws(s, i);
    if j < s.len() && s[j] == ']' {
        Some((acc, j + 1))
    } else if j < s.len() && s[j] == ',' {
        match spec_parse_mailbox_obj(s, spec_skip_ws(s, j + 1)) {
            Some((e, m)) => if i < m <= s.len() {
                spec_parse_mailboxes_rest(s, m, acc.push(e))
            } else {
                None
            },
            None => None,
        }
    } else {
        None
    }
}

/// A whole mailboxes document: an array of mailbox records and nothing more,
/// in document order.
pub open spec fn spec_parse_mailboxes(s: Seq<char>) -> Option<Seq<MailboxV>> {
    let i0 = spec_skip_ws(s, 0);
    if i0 < s.len() && s[i0] == '[' {
        let j = spec_skip_ws(s, i0 + 1);
        let parsed = if j < s.len() && s[j] == ']' {
            Some((Seq::<MailboxV>::empty(), j + 1))
        } else {
            match spec_parse_mailbox_obj(s, j) {
                Some((e, m)) => spec_parse_mailboxes_rest(s, m, seq![e]),
                None => None,
            }
        };
        match parsed {
            Some((es, k)) => if spec_skip_ws(s, k) == s.len() {
                Some(es)
            } else {
                None
            },
            None => None,
        }
    } else {
        None
    }
}

/// Decode a list-mailboxes response body, preserving document order.
/// Returns nothing if and only if the body is not a mailboxes document.
#[verifier::loop_isolation(false)]
pub fn parse_mailboxes(body: &str) -> (r: Option<Vec<Mailbox>>)
    ensures
        match r {
            Some(v) => spec_parse_mailboxes(body@) == Some(v.deep_view()),
            None => spec_parse_mailboxes(body@) is None,
        },
{
    let s = chars_of(body);
    let i0 = skip_ws(&s, 0);
    if i0 >= s.len() || s[i0] != '[' {
        return None;
    }
    let j = skip_ws(&s, i0 + 1);
    if j < s.len() && s[j] == ']' {
        let k = skip_ws(&s, j + 1);
        if k == s.len() {
            let out: Vec<Mailbox> = Vec::new();
            assert(out.deep_view() =~= Seq::<MailboxV>::empty());
            return Some(out);
        } else {
            return None;
        }
    }
    let (first, m) = match parse_mailbox_obj(&s, j) {
        Some(x) => x,
        None => {
            return None;
        },
    };
    let ghost first_v = first@;
    let mut out: Vec<Mailbox> = Vec::new();
    out.push(first);
    assert(out.deep_view() =~= seq![first_v]);
    let mut cur: usize = m;
    loop
        invariant
            cur <= s.len(),
            spec_parse_mailboxes_rest(s@, m as int, seq![first_v]) == spec_parse_mailboxes_rest(
                s@,
                cur as int,
                out.deep_view(),
            ),
        decreases s.len() - cur,
    {
        let j2 = skip_ws(&s, cur);
        if j2 < s.len() && s[j2] == ']' {
            let k = skip_ws(&s, j2 + 1);
            if k == s.len() {
                return Some(out);
            } else {
                return None;
            }
        }
        if !(j2 < s.len() && s[j2] == ',') {
            return None;
        }
        let p = skip_ws(&s, j2 + 1);
        match parse_mailbox_obj(&s, p) {
            Some((e, m2)) => {
                let ghost prev = out.deep_view();
                let ghost ev = e@;
                out.push(e);
                assert(out.deep_view() =~= prev.push(ev));
                cur = m2;
            },
            None => {
                return None;
            },
        }
    }
}

/// The elements of a string array after the first one.
pub open spec fn spec_parse_str_array_rest(s: Seq<char>, i: int, acc: Seq<Seq<char>>) -> Option<
    (Seq<Seq<char>>, int),
>
    decreases s.len() - i,
{
    let j = spec_skip_ws(s, i);
    if j < s.len() && s[j] == ']' {
        Some((acc, j + 1))
    } else if j < s.len() && s[j] == ',' {
        match spec_parse_string(s, spec_skip_ws(s, j + 1)) {
            Some((e, m)) => if i < m <= s.len() {
                spec_parse_str_array_rest(s, m, acc.push(e))
            } else {
                None
            },
            None => None,
        }
    } else {
        None
    }
}

/// An array of JSON strings.
pub open spec fn spec_parse_str_array(s: Seq<char>, i: int) -> Option<(Seq<Seq<char>>, int)> {
    if 0 <= i < s.len() && s[i] == '[' {
        let j = spec_skip_ws(s, i + 1);
        if j < s.len() && s[j] == ']' {
            Some((Seq::<Seq<char>>::empty(), j + 1))
        } else {
            match spec_parse_string(s, j) {
                Some((e, m)) => if i < m <= s.len() {
                    spec_parse_str_array_rest(s, m, seq![e])
                } else {
                    None
                },
                None => None,
            }
        }
    } else {
        None
    }
}

#[verifier::loop_isolation(false)]
fn parse_str_array(s: &Vec<char>, i: usize) -> (r: Option<(Vec<String>, usize)>)
    requires
        i <= s.len(),
    ensures
        match r {
            Some((v, j)) => i < j <= s.len() && spec_parse_str_array(s@, i as int) == Some::<
                (Seq<Seq<char>>, int),
            >((v.deep_view(), j as int)),
            None => spec_parse_str_array(s@, i as int) is None,
        },
{
    if i >= s.len() || s[i] != '[' {
        return None;
    }
    let j = skip_ws(&s, i + 1);
    if j < s.len() && s[j] == ']' {
        let out: Vec<String> = Vec::new();
        assert(out.deep_view() =~= Seq::<Seq<char>>::empty());
        return Some((out, j + 1));
    }
    let (first, m) = match parse_string(s, j) {
        Some(x) => x,
        None => {
            return None;
        },
    };
    let ghost first_v = first@;
    let mut out: Vec<String> = Vec::new();
    out.push(first);
    assert(out.deep_view() =~= seq![first_v]);
    let mut cur: usize = m;
    loop
        invariant
            i < cur <= s.len(),
            spec_parse_str_array_rest(s@, m as int, seq![first_v]) == spec_parse_str_array_rest(
                s@,
                cur as int,
                out.deep_view(),
            ),
        decreases s.len() - cur,
    {
        let j2 = skip_ws(&s, cur);
        if j2 < s.len() && s[j2] == ']' {
            return Some((out, j2 + 1));
        }
        if !(j2 < s.len() && s[j2] == ',') {
            return None;
        }
        let p = skip_ws(&s, j2 + 1);
        match parse_string(&s, p) {
            Some((e, m2)) => {
                let ghost prev = out.deep_view();
                let ghost ev = e@;
                out.push(e);
                assert(out.deep_view() =~= prev.push(ev));
                cur = m2;
            },
            None => {
                return None;
            },
        }
    }
}

/// The members of a mailbox-detail document, read from just after `{` or a
/// comma. Members may come in any order; `aliases` must appear exactly once,
/// as an array of strings, and unrecognized members are skipped with any
/// well-formed value.
pub open spec fn spec_parse_detail_members(
    s: Seq<char>,
    i: int,
    acc: Option<Seq<Seq<char>>>,
) -> Option<(Seq<Seq<char>>, int)>
    decreases s.len() - i,
{
    if 0 <= i <= s.len() {
        let j = spec_skip_ws(s, i);
        match spec_parse_string(s, j) {
            Some((k, j2)) => {
                let j3 = spec_skip_ws(s, j2);
                if j3 < s.len() && s[j3] == ':' {
                    let p = spec_skip_ws(s, j3 + 1);
                    if i < p <= s.len() {
                        let stepped: Option<(Option<Seq<Seq<char>>>, int)> = if k == "aliases"@ {
                            if acc is Some {
                                None
                            } else {
                                match spec_parse_str_array(s, p) {
                                    Some((al, q)) => Some((Some(al), q)),
                                    None => None,
                                }
                            }
                        } else {
                            match spec_skip_value(s, p) {
                                Some(q) => Some((acc, q)),
                                None => None,
                            }
                        };
                        match stepped {
                            Some((acc2, q)) => {
                                let r = spec_skip_ws(s, q);
                                if i < r && r < s.len() {
                                    if s[r] == '}' {
                                        match acc2 {
                                            Some(al) => Some((al, r + 1)),
                                            None => None,
                                        }
                                    } else if s[r] == ',' {
                                        spec_parse_detail_members(s, r + 1, acc2)
                                    } else {
                                        None
                                    }
                                } else {
                                    None
                                }
                            },
                            None => None,
                        }
                    } else {
                        None
                    }
                } else {
                    None
                }
            },
            None => None,
        }
    } else {
        None
    }
}

/// A whole mailbox-detail document: an object whose `aliases` member is an
/// array of strings, other members ignored, and nothing more in the body.
pub open spec fn spec_parse_mailbox_detail(s: Seq<char>) -> Option<Seq<Seq<char>>> {
    let i0 = spec_skip_ws(s, 0);
    if i0 < s.len() && s[i0] == '{' {
        match spec_parse_detail_members(s, i0 + 1, None) {
            Some((al, q)) => if spec_skip_ws(s, q) == s.len() {
                Some(al)
            } else {
                None
            },
            None => None,
        }
    } else {
        None
    }
}

fn parse_detail_members(s: &Vec<char>, i: usize, acc: Option<Vec<String>>) -> (r: Option<
    (Vec<String>, usize),
>)
    requires
        i <= s.len(),
    ensures
        match r {
            Some((v, j)) => i < j <= s.len() && spec_parse_detail_members(
                s@,
                i as int,
                acc.deep_view(),
            ) == Some::<(Seq<Seq<char>>, int)>((v.deep_view(), j as int)),
            None => spec_parse_detail_members(s@, i as int, acc.deep_view()) is None,
        },
    decreases s.len() - i,
{
    let j = skip_ws(s, i);
    let (k, j2) = match parse_string(s, j) {
        Some(x) => x,
        None => {
            return None;
        },
    };
    let j3 = skip_ws(s, j2);
    if !(j3 < s.len() && s[j3] == ':') {
        return None;
    }
    let p = skip_ws(s, j3 + 1);
    let expected: String = "aliases".to_owned();
    let step: Option<(Option<Vec<String>>, usize)> = if k == expected {
        if acc.is_some() {
            None
        } else {
            match parse_str_array(s, p) {
                Some((al, q)) => Some((Some(al), q)),
                None => None,
            }
        }
    } else {
        match skip_value(s, p) {
            Some(q) => Some((acc, q)),
            None => None,
        }
    };
    let (acc2, q) = match step {
        Some(x) => x,
        None => {
            return None;
        },
    };
    let r = skip_ws(s, q);
    if !(r < s.len()) {
        return None;
    }
    if s[r] == '}' {
        match acc2 {
            Some(al) => Some((al, r + 1)),
            None => None,
        }
    } else if s[r] == ',' {
        parse_detail_members(s, r + 1, acc2)
    } else {
        None
    }
}

/// Decode a get-mailbox-detail response body into the alias list it carries,
/// in document order. Returns nothing if and only if the body is not a
/// mailbox-detail document.
pub fn parse_mailbox_detail(body: &str) -> (r: Option<MailboxDetail>)
    ensures
        match r {
            Some(d) => spec_parse_mailbox_detail(body@) == Some(d@),
            None => spec_parse_mailbox_detail(body@) is None,
        },
{
    let s = chars_of(body);
    let i0 = skip_ws(&s, 0);
    if i0 >= s.len() || s[i0] != '{' {
        return None;
    }
    let (al, q) = match parse_detail_members(&s, i0 + 1, None) {
        Some(x) => x,
        None => {
            return None;
        },
    };
    let e = skip_ws(&s, q);
    if e == s.len() {
        Some(MailboxDetail { aliases: al })
    } else {
        None
    }
}

} // verus!

use crate::json::push_quoted;
use crate::json::spec_quote;

verus! {

/// The encoding of an alias list's elements: each quoted, comma separated.
pub open spec fn spec_encode_alias_list(al: Seq<Seq<char>>) -> Seq<char>
    decreases al.len(),
{
    if al.len() == 0 {
        Seq::empty()
    } else if al.len() == 1 {
        spec_quote(al[0])
    } else {
        spec_quote(al[0]) + seq![','] + spec_encode_alias_list(al.drop_first())
    }
}

/// The document an alias update writes back: the whole desired alias list,
/// since the remote end replaces the resource wholesale.
pub open spec fn spec_encode_detail(al: Seq<Seq<char>>) -> Seq<char> {
    seq!['{'] + spec_quote("aliases"@) + seq![':', '['] + spec_encode_alias_list(al) + seq![
        ']',
        '}',
    ]
}

fn encode_aliases_from(al: &Vec<String>, i: usize) -> (r: String)
    requires
        i <= al.len(),
    ensures
        r@ == spec_encode_alias_list(al.deep_view().subrange(i as int, al.len() as int)),
    decreases al.len() - i,
{
    let mut out = String::new();
    if i < al.len() {
        push_quoted(&mut out, al[i].as_str());
        if i + 1 < al.len() {
            out.push(',');
            let rest = encode_aliases_from(al, i + 1);
            out.append(rest.as_str());
        }
    }
    proof {
        let dv = al.deep_view();
        let sub = dv.subrange(i as int, al.len() as int);
        if i < al.len() {
            assert(sub[0] == al[i as int]@);
            assert(sub.drop_first() =~= dv.subrange(i + 1, al.len() as int));
        }
        assert(out@ =~= spec_encode_alias_list(sub));
    }
    out
}

/// Write a mailbox detail as the JSON document the update endpoint takes.
pub fn encode_mailbox_detail(d: &MailboxDetail) -> (r: String)
    ensures
        r@ == spec_encode_detail(d@),
{
    let mut out = String::new();
    out.push('{');
    push_quoted(&mut out, "aliases");
    out.push(':');
    out.push('[');
    let items = encode_aliases_from(&d.aliases, 0);
    out.append(items.as_str());
    out.push(']');
    out.push('}');
    proof {
        assert(d.aliases.deep_view().subrange(0, d.aliases.len() as int) =~= d@);
        assert(out@ =~= spec_encode_detail(d@));
    }
    out
}

} // verus!

use crate::json::lemma_parse_quoted;
use crate::json::lemma_subrange_index;

verus! {

/// What follows the elements already read in an encoded alias array: for
/// each remaining element a comma and its quoted form, then the closing
/// bracket.
pub open spec fn spec_list_tail(more: Seq<Seq<char>>) -> Seq<char>
    decreases more.len(),
{
    if more.len() == 0 {
        seq![']']
    } else {
        seq![','] + spec_quote(more[0]) + spec_list_tail(more.drop_first())
    }
}

/// The encoded list with its closing bracket, split as first element plus
/// tail.
proof fn lemma_encode_list_tail(al: Seq<Seq<char>>)
    requires
        al.len() >= 1,
    ensures
        spec_encode_alias_list(al) + seq![']'] == spec_quote(al[0]) + spec_list_tail(
            al.drop_first(),
        ),
    decreases al.len(),
{
    if al.len() == 1 {
        assert(al.drop_first().len() == 0);
        assert(spec_encode_alias_list(al) + seq![']'] =~= spec_quote(al[0]) + spec_list_tail(
            al.drop_first(),
        ));
    } else {
        let df = al.drop_first();
        lemma_encode_list_tail(df);
        assert(spec_encode_alias_list(al) + seq![']'] =~= (spec_quote(al[0]) + seq![',']) + (
        spec_encode_alias_list(df) + seq![']']));
        assert(spec_quote(al[0]) + spec_list_tail(df) =~= (spec_quote(al[0]) + seq![',']) + (
        spec_quote(df[0]) + spec_list_tail(df.drop_first())));
        assert(spec_encode_alias_list(al) + seq![']'] == spec_quote(al[0]) + spec_list_tail(df));
    }
}

/// Reading the elements that follow the first one of an encoded alias array.
proof fn lemma_parse_array_rest(s: Seq<char>, i: int, acc: Seq<Seq<char>>, more: Seq<Seq<char>>)
    requires
        0 <= i,
        i + spec_list_tail(more).len() <= s.len(),
        s.subrange(i, i + spec_list_tail(more).len()) == spec_list_tail(more),
    ensures
        spec_parse_str_array_rest(s, i, acc) == Some::<(Seq<Seq<char>>, int)>(
            (acc + more, i + spec_list_tail(more).len()),
        ),
    decreases more.len(),
{
    let tail = spec_list_tail(more);
    if more.len() == 0 {
        lemma_subrange_index(s, i, tail, 0);
        assert(s[i] == ']');
        assert(spec_skip_ws(s, i) == i);
        assert(acc + more =~= acc);
    } else {
        let q = spec_quote(more[0]);
        let rest_tail = spec_list_tail(more.drop_first());
        assert(tail == seq![','] + q + rest_tail);
        lemma_subrange_index(s, i, tail, 0);
        assert(s[i] == ',');
        assert(spec_skip_ws(s, i) == i);
        assert forall|k: int| 0 <= k < q.len() implies s.subrange(i + 1, i + 1 + q.len() as int)[k]
            == q[k] by {
            lemma_subrange_index(s, i, tail, 1 + k);
            assert(tail[1 + k] == q[k]);
        }
        assert(s.subrange(i + 1, i + 1 + q.len() as int) =~= q);
        assert(q[0] == '"');
        lemma_subrange_index(s, i, tail, 1);
        assert(s[i + 1] == '"');
        assert(spec_skip_ws(s, i + 1) == i + 1);
        lemma_parse_quoted(s, i + 1, more[0]);
        let m = i + 1 + q.len() as int;
        assert forall|k: int| 0 <= k < rest_tail.len() implies s.subrange(
            m,
            m + rest_tail.len() as int,
        )[k] == rest_tail[k] by {
            lemma_subrange_index(s, i, tail, 1 + q.len() + k);
            assert(tail[1 + q.len() + k] == rest_tail[k]);
        }
        assert(s.subrange(m, m + rest_tail.len() as int) =~= rest_tail);
        lemma_parse_array_rest(s, m, acc.push(more[0]), more.drop_first());
        assert(acc.push(more[0]) + more.drop_first() =~= acc + more);
    }
}

/// An encoded alias array reads back as exactly its list.
proof fn lemma_parse_alias_array(s: Seq<char>, i: int, al: Seq<Seq<char>>)
    requires
        0 <= i,
        i + 2 + spec_encode_alias_list(al).len() <= s.len(),
        s.subrange(i, i + 2 + spec_encode_alias_list(al).len()) == seq!['[']
            + spec_encode_alias_list(al) + seq![']'],
    ensures
        spec_parse_str_array(s, i) == Some::<(Seq<Seq<char>>, int)>(
            (al, i + 2 + spec_encode_alias_list(al).len()),
        ),
{
    let enc = spec_encode_alias_list(al);
    let whole = seq!['['] + enc + seq![']'];
    lemma_subrange_index(s, i, whole, 0);
    assert(s[i] == '[');
    if al.len() == 0 {
        assert(enc.len() == 0);
        lemma_subrange_index(s, i, whole, 1);
        assert(whole[1] == ']');
        assert(s[i + 1] == ']');
        assert(spec_skip_ws(s, i + 1) == i + 1);
        assert(al =~= Seq::<Seq<char>>::empty());
    } else {
        lemma_encode_list_tail(al);
        let q = spec_quote(al[0]);
        let lt = spec_list_tail(al.drop_first());
        assert(whole =~= seq!['['] + (enc + seq![']']));
        assert(seq!['['] + (q + lt) =~= seq!['['] + q + lt);
        assert(whole == seq!['['] + q + lt);
        assert forall|k: int| 0 <= k < q.len() implies s.subrange(i + 1, i + 1 + q.len() as int)[k]
            == q[k] by {
            lemma_subrange_index(s, i, whole, 1 + k);
            assert(whole[1 + k] == q[k]);
        }
        assert(s.subrange(i + 1, i + 1 + q.len() as int) =~= q);
        assert(q[0] == '"');
        lemma_subrange_index(s, i, whole, 1);
        assert(s[i + 1] == '"');
        assert(spec_skip_ws(s, i + 1) == i + 1);
        lemma_parse_quoted(s, i + 1, al[0]);
        let m = i + 1 + q.len() as int;
        assert forall|k: int| 0 <= k < lt.len() implies s.subrange(m, m + lt.len() as int)[k]
            == lt[k] by {
            lemma_subrange_index(s, i, whole, 1 + q.len() + k);
            assert(whole[1 + q.len() + k] == lt[k]);
        }
        assert(s.subrange(m, m + lt.len() as int) =~= lt);
        lemma_parse_array_rest(s, m, seq![al[0]], al.drop_first());
        assert(seq![al[0]] + al.drop_first() =~= al);
        assert(q.len() + lt.len() == enc.len() + 1);
    }
}

/// The codec round-trips: a mailbox-detail document written for an alias
/// list reads back as exactly that list. In particular, after an update
/// writes its document, a read of the same state decodes to the written
/// list.
pub proof fn lemma_detail_roundtrip(al: Seq<Seq<char>>)
    ensures
        spec_parse_mailbox_detail(spec_encode_detail(al)) == Some(al),
{
    let s = spec_encode_detail(al);
    let qa = spec_quote("aliases"@);
    let enc = spec_encode_alias_list(al);
    assert(s.len() == 1 + qa.len() + 2 + enc.len() + 2);
    assert(s[0] == '{');
    assert(spec_skip_ws(s, 0) == 0);
    assert(qa[0] == '"');
    assert(s[1] == qa[0]);
    assert(spec_skip_ws(s, 1) == 1);
    assert(s.subrange(1, 1 + qa.len() as int) =~= qa);
    lemma_parse_quoted(s, 1, "aliases"@);
    let j = 1 + qa.len() as int;
    assert(s[j] == ':');
    assert(spec_skip_ws(s, j) == j);
    assert(s[j + 1] == '[');
    assert(spec_skip_ws(s, j + 1) == j + 1);
    assert(s.subrange(j + 1, j + 1 + 2 + enc.len() as int) =~= seq!['['] + enc + seq![']']);
    lemma_parse_alias_array(s, j + 1, al);
    let q = j + 3 + enc.len() as int;
    assert(s[q] == '}');
    assert(spec_skip_ws(s, q) == q);
    assert(q + 1 == s.len());
    assert(spec_skip_ws(s, q + 1) == q + 1);
}

} // verus!

verus! {

/// A domain record written for one fqdn.
pub open spec fn spec_encode_fqdn_obj(d: Seq<char>) -> Seq<char> {
    seq!['{'] + spec_quote("fqdn"@) + seq![':'] + spec_quote(d) + seq!['}']
}

/// The records of a domains document, comma separated.
pub open spec fn spec_encode_domain_list(ds: Seq<Seq<char>>) -> Seq<char>
    decreases ds.len(),
{
    if ds.len() == 0 {
        Seq::empty()
    } else if ds.len() == 1 {
        spec_encode_fqdn_obj(ds[0])
    } else {
        spec_encode_fqdn_obj(ds[0]) + seq![','] + spec_encode_domain_list(ds.drop_first())
    }
}

/// A whole domains document written for a list of fqdns.
pub open spec fn spec_encode_domains(ds: Seq<Seq<char>>) -> Seq<char> {
    seq!['['] + spec_encode_domain_list(ds) + seq![']']
}

/// An encoded domain record reads back as exactly its fqdn.
proof fn lemma_parse_encoded_fqdn_obj(s: Seq<char>, i: int, d: Seq<char>)
    requires
        0 <= i,
        i + spec_encode_fqdn_obj(d).len() <= s.len(),
        s.subrange(i, i + spec_encode_fqdn_obj(d).len()) == spec_encode_fqdn_obj(d),
    ensures
        spec_parse_fqdn_obj(s, i) == Some::<(Seq<char>, int)>(
            (d, i + spec_encode_fqdn_obj(d).len()),
        ),
{
    let obj = spec_encode_fqdn_obj(d);
    let qk = spec_quote("fqdn"@);
    let qd = spec_quote(d);
    lemma_subrange_index(s, i, obj, 0);
    assert(obj[0] == '{');
    assert(s[i] == '{');
    assert forall|k: int| 0 <= k < qk.len() implies s.subrange(i + 1, i + 1 + qk.len() as int)[k]
        == qk[k] by {
        lemma_subrange_index(s, i, obj, 1 + k);
        assert(obj[1 + k] == qk[k]);
    }
    assert(s.subrange(i + 1, i + 1 + qk.len() as int) =~= qk);
    assert(qk[0] == '"');
    lemma_subrange_index(s, i, obj, 1);
    assert(s[i + 1] == '"');
    assert(spec_skip_ws(s, i + 1) == i + 1);
    lemma_parse_quoted(s, i + 1, "fqdn"@);
    let j = i + 1 + qk.len() as int;
    lemma_subrange_index(s, i, obj, 1 + qk.len() as int);
    assert(obj[1 + qk.len() as int] == ':');
    assert(s[j] == ':');
    assert(spec_skip_ws(s, j) == j);
    assert forall|k: int| 0 <= k < qd.len() implies s.subrange(j + 1, j + 1 + qd.len() as int)[k]
        == qd[k] by {
        lemma_subrange_index(s, i, obj, 2 + qk.len() + k);
        assert(obj[2 + qk.len() + k] == qd[k]);
    }
    assert(s.subrange(j + 1, j + 1 + qd.len() as int) =~= qd);
    assert(qd[0] == '"');
    lemma_subrange_index(s, i, obj, 2 + qk.len() as int);
    assert(s[j + 1] == '"');
    assert(spec_skip_ws(s, j + 1) == j + 1);
    lemma_parse_quoted(s, j + 1, d);
    let q = j + 1 + qd.len() as int;
    lemma_subrange_index(s, i, obj, 2 + qk.len() + qd.len() as int);
    assert(obj[2 + qk.len() + qd.len() as int] == '}');
    assert(s[q] == '}');
    assert(spec_skip_ws(s, q) == q);
    assert(q + 1 == i + obj.len());
}

/// What follows the records already read in an encoded domains document.
pub open spec fn spec_domains_tail(more: Seq<Seq<char>>) -> Seq<char>
    decreases more.len(),
{
    if more.len() == 0 {
        seq![']']
    } else {
        seq![','] + spec_encode_fqdn_obj(more[0]) + spec_domains_tail(more.drop_first())
    }
}

/// The encoded record list with its closing bracket, split as first record
/// plus tail.
proof fn lemma_encode_domains_tail(ds: Seq<Seq<char>>)
    requires
        ds.len() >= 1,
    ensures
        spec_encode_domain_list(ds) + seq![']'] == spec_encode_fqdn_obj(ds[0]) + spec_domains_tail(
            ds.drop_first(),
        ),
    decreases ds.len(),
{
    if ds.len() == 1 {
        assert(ds.drop_first().len() == 0);
        assert(spec_encode_domain_list(ds) + seq![']'] =~= spec_encode_fqdn_obj(ds[0])
            + spec_domains_tail(ds.drop_first()));
    } else {
        let df = ds.drop_first();
        lemma_encode_domains_tail(df);
        assert(spec_encode_domain_list(ds) + seq![']'] =~= (spec_encode_fqdn_obj(ds[0]) + seq![','])
            + (spec_encode_domain_list(df) + seq![']']));
        assert(spec_encode_fqdn_obj(ds[0]) + spec_domains_tail(df) =~= (spec_encode_fqdn_obj(ds[0])
            + seq![',']) + (spec_encode_fqdn_obj(df[0]) + spec_domains_tail(df.drop_first())));
        assert(spec_encode_domain_list(ds) + seq![']'] == spec_encode_fqdn_obj(ds[0])
            + spec_domains_tail(df));
    }
}

/// Reading the records that follow the first one of an encoded domains
/// document.
proof fn lemma_parse_domains_rest_encoded(
    s: Seq<char>,
    i: int,
    acc: Seq<Seq<char>>,
    more: Seq<Seq<char>>,
)
    requires
        0 <= i,
        i + spec_domains_tail(more).len() <= s.len(),
        s.subrange(i, i + spec_domains_tail(more).len()) == spec_domains_tail(more),
    ensures
        spec_parse_domains_rest(s, i, acc) == Some::<(Seq<Seq<char>>, int)>(
            (acc + more, i + spec_domains_tail(more).len()),
        ),
    decreases more.len(),
{
    let tail = spec_domains_tail(more);
    if more.len() == 0 {
        lemma_subrange_index(s, i, tail, 0);
        assert(s[i] == ']');
        assert(spec_skip_ws(s, i) == i);
        assert(acc + more =~= acc);
    } else {
        let obj = spec_encode_fqdn_obj(more[0]);
        let rest_tail = spec_domains_tail(more.drop_first());
        assert(tail == seq![','] + obj + rest_tail);
        lemma_subrange_index(s, i, tail, 0);
        assert(s[i] == ',');
        assert(spec_skip_ws(s, i) == i);
        assert forall|k: int| 0 <= k < obj.len() implies s.subrange(
            i + 1,
            i + 1 + obj.len() as int,
        )[k] == obj[k] by {
            lemma_subrange_index(s, i, tail, 1 + k);
            assert(tail[1 + k] == obj[k]);
        }
        assert(s.subrange(i + 1, i + 1 + obj.len() as int) =~= obj);
        assert(obj[0] == '{');
        lemma_subrange_index(s, i, tail, 1);
        assert(s[i + 1] == '{');
        assert(spec_skip_ws(s, i + 1) == i + 1);
        lemma_parse_encoded_fqdn_obj(s, i + 1, more[0]);
        let m = i + 1 + obj.len() as int;
        assert forall|k: int| 0 <= k < rest_tail.len() implies s.subrange(
            m,
            m + rest_tail.len() as int,
        )[k] == rest_tail[k] by {
            lemma_subrange_index(s, i, tail, 1 + obj.len() + k);
            assert(tail[1 + obj.len() + k] == rest_tail[k]);
        }
        assert(s.subrange(m, m + rest_tail.len() as int) =~= rest_tail);
        lemma_parse_domains_rest_encoded(s, m, acc.push(more[0]), more.drop_first());
        assert(acc.push(more[0]) + more.drop_first() =~= acc + more);
    }
}

/// A domains document written for any list of fqdns reads back as exactly
/// that list, in document order: listDomains returns the `fqdn` field of
/// each record the document holds.
pub proof fn lemma_domains_roundtrip(ds: Seq<Seq<char>>)
    ensures
        spec_parse_domains(spec_encode_domains(ds)) == Some(ds),
{
    let s = spec_encode_domains(ds);
    let enc = spec_encode_domain_list(ds);
    assert(s.len() == 2 + enc.len());
    assert(s[0] == '[');
    assert(spec_skip_ws(s, 0) == 0);
    if ds.len() == 0 {
        assert(enc.len() == 0);
        assert(s[1] == ']');
        assert(spec_skip_ws(s, 1) == 1);
        assert(spec_skip_ws(s, 2) == 2);
        assert(ds =~= Seq::<Seq<char>>::empty());
    } else {
        lemma_domains_roundtrip_nonempty(ds);
    }
}

/// The first record and the remaining text of a nonempty encoded domains
/// document.
#[verifier::rlimit(100)]
proof fn lemma_domains_first_record(ds: Seq<Seq<char>>)
    requires
        ds.len() >= 1,
    ensures
        spec_parse_fqdn_obj(spec_encode_domains(ds), 1) == Some::<(Seq<char>, int)>(
            (ds[0], 1 + spec_encode_fqdn_obj(ds[0]).len() as int),
        ),
        spec_encode_domains(ds).subrange(
            1 + spec_encode_fqdn_obj(ds[0]).len() as int,
            spec_encode_domains(ds).len() as int,
        ) == spec_domains_tail(ds.drop_first()),
        spec_encode_domains(ds).len() == 1 + spec_encode_fqdn_obj(ds[0]).len()
            + spec_domains_tail(ds.drop_first()).len(),
        spec_encode_domains(ds)[1] == '{',
{
    let s = spec_encode_domains(ds);
    let enc = spec_encode_domain_list(ds);
    lemma_encode_domains_tail(ds);
    let obj = spec_encode_fqdn_obj(ds[0]);
    let dt = spec_domains_tail(ds.drop_first());
    assert(s == seq!['['] + obj + dt) by {
        assert(s =~= seq!['['] + (enc + seq![']']));
        assert(seq!['['] + (obj + dt) =~= seq!['['] + obj + dt);
    }
    lemma_bracketed_split(s, obj, dt);
    assert(obj[0] == '{');
    assert(s[1] == '{');
    lemma_parse_encoded_fqdn_obj(s, 1, ds[0]);
}

/// The nonempty case of the domains round trip.
#[verifier::rlimit(100)]
proof fn lemma_domains_roundtrip_nonempty(ds: Seq<Seq<char>>)
    requires
        ds.len() >= 1,
    ensures
        spec_parse_domains(spec_encode_domains(ds)) == Some(ds),
{
    let s = spec_encode_domains(ds);
    let obj = spec_encode_fqdn_obj(ds[0]);
    let dt = spec_domains_tail(ds.drop_first());
    assert(s.len() == 2 + spec_encode_domain_list(ds).len());
    assert(s[0] == '[');
    assert(spec_skip_ws(s, 0) == 0);
    lemma_domains_first_record(ds);
    assert(s[1] == '{');
    assert(spec_skip_ws(s, 1) == 1);
    let m = 1 + obj.len() as int;
    lemma_parse_domains_rest_encoded(s, m, seq![ds[0]], ds.drop_first());
    assert(seq![ds[0]] + ds.drop_first() =~= ds);
    let end = m + dt.len() as int;
    assert(end == s.len());
    assert(spec_skip_ws(s, end) == end);
}

/// The two segments that follow the opening bracket of a concatenation.
proof fn lemma_bracketed_split(s: Seq<char>, obj: Seq<char>, dt: Seq<char>)
    requires
        s == seq!['['] + obj + dt,
    ensures
        s.subrange(1, 1 + obj.len() as int) == obj,
        s.subrange(1 + obj.len() as int, 1 + obj.len() + dt.len() as int) == dt,
{
    assert forall|k: int| 0 <= k < obj.len() implies s.subrange(1, 1 + obj.len() as int)[k]
        == obj[k] by {
        assert((seq!['['] + obj + dt)[1 + k] == obj[k]);
    }
    assert(s.subrange(1, 1 + obj.len() as int) =~= obj);
    let m = 1 + obj.len() as int;
    assert forall|k: int| 0 <= k < dt.len() implies s.subrange(m, m + dt.len() as int)[k]
        == dt[k] by {
        assert((seq!['['] + obj + dt)[m + k] == dt[k]);
    }
    assert(s.subrange(m, m + dt.len() as int) =~= dt);
}

} // verus!
