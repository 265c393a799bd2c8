//! The same-origin guard in front of the API. The API is unauthenticated and
//! can start user-configured MCP commands, so a hostile web page must not
//! reach it: when the server is bound to a loopback address, the `Host`
//! header must name a loopback host (which defeats DNS rebinding), and an
//! `Origin` header must be the request's own host or one of the origins
//! allowed explicitly (which blocks cross-site requests). Requests without
//! these headers pass.
use vstd::prelude::*;
use crate::text::{
    first_occurrence, has_prefix, find_text, starts_with, slice_text, char_count, text_eq, text_to_string,
    chars_of,
};

verus! {

/// The host of a `Host` header, without its port: up to and including the
/// closing ']' of a bracketed IPv6 address, otherwise up to the first ':'.
pub open spec fn host_name(host: Seq<char>) -> Seq<char> {
    if host.len() > 0 && host[0] == '[' {
        match first_occurrence(host, seq![']']) {
            Some(i) => host.subrange(0, i + 1),
            None => host,
        }
    } else {
        match first_occurrence(host, seq![':']) {
            Some(i) => host.subrange(0, i),
            None => host,
        }
    }
}

/// A decimal digit.
pub open spec fn is_digit(c: char) -> bool {
    48 <= (c as u32) <= 57
}

/// The number a run of decimal digits denotes.
pub open spec fn digits_value(f: Seq<char>) -> nat
    decreases f.len(),
{
    if f.len() == 0 {
        0
    } else {
        digits_value(f.drop_last()) * 10 + (((f.last() as u32) - 48) as nat)
    }
}

/// One field of a dotted-quad IPv4 address, written as `Ipv4Addr`'s parser
/// takes it: one to three decimal digits, no leading zero, at most 255.
pub open spec fn octet(f: Seq<char>) -> bool {
    &&& 1 <= f.len() <= 3
    &&& forall|i: int| 0 <= i < f.len() ==> is_digit(#[trigger] f[i])
    &&& (f.len() == 1 || f[0] != '0')
    &&& digits_value(f) <= 255
}

/// `s` is `k` octets separated by single dots.
pub open spec fn dotted_octets(s: Seq<char>, k: nat) -> bool
    decreases k,
{
    if k <= 1 {
        octet(s)
    } else {
        match first_occurrence(s, seq!['.']) {
            Some(i) => octet(s.subrange(0, i)) && dotted_octets(s.subrange(i + 1, s.len() as int), (k - 1) as nat),
            None => false,
        }
    }
}

/// An IPv4 address in 127.0.0.0/8, as a dotted quad.
pub open spec fn ipv4_loopback(name: Seq<char>) -> bool {
    has_prefix(name, "127."@) && dotted_octets(name.subrange(4, name.len() as int), 3)
}

/// A loopback host: "localhost", the IPv6 loopback address (bracketed or
/// not), or an IPv4 address in 127.0.0.0/8. A DNS name is never one, even
/// one that begins with "127.".
pub open spec fn loopback_name(name: Seq<char>) -> bool {
    name == "localhost"@ || name == "[::1]"@ || name == "::1"@ || ipv4_loopback(name)
}

/// The host (with port) an origin names, for an http or https origin.
pub open spec fn origin_authority(origin: Seq<char>) -> Option<Seq<char>> {
    if has_prefix(origin, "http://"@) {
        Some(origin.subrange(7, origin.len() as int))
    } else if has_prefix(origin, "https://"@) {
        Some(origin.subrange(8, origin.len() as int))
    } else {
        None
    }
}

/// Whether a request passes the guard. `bind` is the address the server is
/// bound to, `host` and `origin` the request's headers, `allowed` the extra
/// allowed origins.
pub open spec fn request_allowed(bind: Seq<char>, host: Option<Seq<char>>, origin: Option<Seq<char>>, allowed: Seq<Seq<char>>) -> bool {
    let host_ok = !loopback_name(bind) || match host {
        Some(h) => loopback_name(host_name(h)),
        None => true,
    };
    let origin_ok = match origin {
        Some(o) => allowed.contains(o) || (host matches Some(h) && origin_authority(o) == Some(h)),
        None => true,
    };
    host_ok && origin_ok
}

/// What the guard promises: a client that sends neither header passes; on a
/// loopback bind a request naming another host is refused; and a request
/// from another origin (not allowed explicitly) is refused.
pub proof fn lemma_guard_promises(bind: Seq<char>, host: Option<Seq<char>>, origin: Option<Seq<char>>, allowed: Seq<Seq<char>>)
    ensures
        request_allowed(bind, None, None, allowed),
        (loopback_name(bind) && (host matches Some(h) && !loopback_name(host_name(h)))) ==> !request_allowed(
            bind,
            host,
            origin,
            allowed,
        ),
        (origin matches Some(o) && (!allowed.contains(o) && !(host matches Some(h) && origin_authority(o) == Some(h))))
            ==> !request_allowed(bind, host, origin, allowed),
{
}

fn name_of_host(host: &str) -> (r: String)
    ensures
        r@ == host_name(host@),
{
    let n = char_count(host);
    if n > 0 && starts_with(host, "[") {
        proof {
            reveal_strlit("[");
            assert(host@.subrange(0, 1)[0] == host@[0]);
        }
        match find_text(host, "]") {
            Some(i) => {
                proof {
                    reveal_strlit("]");
                    assert(seq![']'] =~= "]"@);
                    assert(i + 1 <= host@.len());
                }
                slice_text(host, 0, i + 1)
            },
            None => {
                proof {
                    reveal_strlit("]");
                    assert(seq![']'] =~= "]"@);
                }
                text_to_string(host)
            },
        }
    } else {
        proof {
            reveal_strlit("[");
            if n > 0 && host@[0] == '[' {
                assert(host@.subrange(0, 1) =~= "["@);
            }
        }
        match find_text(host, ":") {
            Some(i) => {
                proof {
                    reveal_strlit(":");
                    assert(seq![':'] =~= ":"@);
                }
                slice_text(host, 0, i)
            },
            None => {
                proof {
                    reveal_strlit(":");
                    assert(seq![':'] =~= ":"@);
                }
                text_to_string(host)
            },
        }
    }
}

fn is_octet(f: &str) -> (r: bool)
    ensures
        r == octet(f@),
{
    let cs = chars_of(f);
    let n = cs.len();
    if n < 1 || n > 3 {
        return false;
    }
    if n > 1 && cs[0] == '0' {
        return false;
    }
    let mut v: u32 = 0;
    let mut i: usize = 0;
    while i < n
        invariant
            cs@ == f@,
            n == cs@.len(),
            1 <= n <= 3,
            i <= n,
            forall|j: int| 0 <= j < i ==> is_digit(#[trigger] cs@[j]),
            v == digits_value(cs@.take(i as int)),
            v <= (if i == 0 { 0int } else if i == 1 { 9int } else if i == 2 { 99int } else { 999int }),
        decreases n - i,
    {
        let d = cs[i] as u32;
        if d < 48 || d > 57 {
            assert(!is_digit(cs@[i as int]));
            return false;
        }
        proof {
            let t = cs@.take(i + 1);
            assert(t.drop_last() =~= cs@.take(i as int));
            assert(t.last() == cs@[i as int]);
        }
        v = v * 10 + (d - 48);
        i = i + 1;
    }
    assert(cs@.take(n as int) =~= cs@);
    v <= 255
}

fn is_dotted_octets(s: &str, k: usize) -> (r: bool)
    ensures
        r == dotted_octets(s@, k as nat),
    decreases k,
{
    if k <= 1 {
        return is_octet(s);
    }
    proof {
        reveal_strlit(".");
        assert(seq!['.'] =~= "."@);
    }
    match find_text(s, ".") {
        Some(i) => {
            let n = char_count(s);
            let head = slice_text(s, 0, i);
            let tail = slice_text(s, i + 1, n);
            is_octet(head.as_str()) && is_dotted_octets(tail.as_str(), k - 1)
        },
        None => false,
    }
}

fn is_loopback(name: &str) -> (r: bool)
    ensures
        r == loopback_name(name@),
{
    if text_eq(name, "localhost") || text_eq(name, "[::1]") || text_eq(name, "::1") {
        return true;
    }
    if !starts_with(name, "127.") {
        return false;
    }
    proof {
        reveal_strlit("127.");
    }
    let rest = slice_text(name, 4, char_count(name));
    is_dotted_octets(rest.as_str(), 3)
}

fn authority_of(origin: &str) -> (r: Option<String>)
    ensures
        match r {
            Some(a) => origin_authority(origin@) == Some(a@),
            None => origin_authority(origin@) is None,
        },
{
    let n = char_count(origin);
    if starts_with(origin, "http://") {
        proof {
            reveal_strlit("http://");
        }
        Some(slice_text(origin, 7, n))
    } else if starts_with(origin, "https://") {
        proof {
            reveal_strlit("https://");
        }
        Some(slice_text(origin, 8, n))
    } else {
        None
    }
}

fn listed(allowed: &Vec<String>, origin: &str) -> (r: bool)
    ensures
        r == allowed@.map_values(|a: String| a@).contains(origin@),
{
    let ghost all = allowed@.map_values(|a: String| a@);
    let mut i: usize = 0;
    while i < allowed.len()
        invariant
            all == allowed@.map_values(|a: String| a@),
            i <= allowed@.len(),
            forall|j: int| 0 <= j < i ==> all[j] != origin@,
        decreases allowed.len() - i,
    {
        if text_eq(allowed[i].as_str(), origin) {
            assert(all[i as int] == origin@);
            return true;
        }
        i = i + 1;
    }
    false
}

/// The guard (see `request_allowed`).
pub fn allow_request(bind: &str, host: Option<&str>, origin: Option<&str>, allowed: &Vec<String>) -> (r: bool)
    ensures
        r == request_allowed(
            bind@,
            match host {
                Some(h) => Some(h@),
                None => None,
            },
            match origin {
                Some(o) => Some(o@),
                None => None,
            },
            allowed@.map_values(|a: String| a@),
        ),
{
    let host_ok = if !is_loopback(bind) {
        true
    } else {
        match host {
            Some(h) => {
                let name = name_of_host(h);
                is_loopback(name.as_str())
            },
            None => true,
        }
    };
    let origin_ok = match origin {
        Some(o) => {
            if listed(allowed, o) {
                true
            } else {
                match (host, authority_of(o)) {
                    (Some(h), Some(a)) => text_eq(a.as_str(), h),
                    _ => false,
                }
            }
        },
        None => true,
    };
    host_ok && origin_ok
}

} // verus!
