//! Which feed addresses may be stored and fetched: HTTPS only, on port 443
//! or 8443, with a domain that is neither local nor an IP address and does
//! not resolve into a private network.

use vstd::prelude::*;
use crate::text::{chars_of, has_prefix, string_of, same_text};

verus! {

/// `char::to_ascii_lowercase`.
pub open spec fn ascii_lower(c: char) -> char {
    if 'A' <= c && c <= 'Z' {
        ((c as u32) + 32) as char
    } else {
        c
    }
}

fn ascii_lower_exec(c: char) -> (r: char)
    ensures
        r == ascii_lower(c),
{
    if 'A' <= c && c <= 'Z' {
        let b: u8 = c as u8;
        assert(b == c as u32);
        ((b + 32) as char)
    } else {
        c
    }
}

/// `s.to_ascii_lowercase()`.
pub open spec fn lowercase(s: Seq<char>) -> Seq<char> {
    s.map_values(|c: char| ascii_lower(c))
}

/// A bracket of an IPv6 host.
pub open spec fn is_bracket(c: char) -> bool {
    c == '[' || c == ']'
}

/// `s` without its leading brackets.
pub open spec fn strip_leading(s: Seq<char>) -> Seq<char>
    decreases s.len(),
{
    if s.len() > 0 && is_bracket(s[0]) {
        strip_leading(s.skip(1))
    } else {
        s
    }
}

/// `s` without its trailing brackets.
pub open spec fn strip_trailing(s: Seq<char>) -> Seq<char>
    decreases s.len(),
{
    if s.len() > 0 && is_bracket(s.last()) {
        strip_trailing(s.drop_last())
    } else {
        s
    }
}

/// The host as checked: `trim_matches(['[', ']'])`, then lower case.
pub open spec fn host_key(host: Seq<char>) -> Seq<char> {
    lowercase(strip_trailing(strip_leading(host)))
}

fn host_key_exec(host: &str) -> (r: Vec<char>)
    ensures
        r@ == host_key(host@),
{
    let v = chars_of(host);
    let mut a: usize = 0;
    assert(v@.skip(0) =~= v@);
    while a < v.len() && (v[a] == '[' || v[a] == ']')
        invariant
            a <= v.len(),
            strip_leading(v@) == strip_leading(v@.skip(a as int)),
        decreases v.len() - a,
    {
        assert(v@.skip(a as int).skip(1) =~= v@.skip(a + 1));
        a += 1;
    }
    let mut b: usize = v.len();
    assert(v@.skip(a as int).take(b - a) =~= v@.skip(a as int));
    while b > a && (v[b - 1] == '[' || v[b - 1] == ']')
        invariant
            a <= b <= v.len(),
            strip_trailing(strip_leading(v@)) == strip_trailing(v@.subrange(a as int, b as int)),
        decreases b,
    {
        assert(v@.subrange(a as int, b as int).drop_last() =~= v@.subrange(a as int, b - 1));
        b -= 1;
    }
    proof {
        let t = v@.skip(a as int);
        if a < v.len() {
            assert(!is_bracket(t[0]));
        } else {
            assert(t.len() == 0);
        }
        assert(strip_leading(v@) == v@.skip(a as int));
        let m = v@.subrange(a as int, b as int);
        if b > a {
            assert(!is_bracket(m.last()));
        }
        assert(strip_trailing(m) == m);
    }
    let mut r: Vec<char> = Vec::new();
    let mut k = a;
    while k < b
        invariant
            a <= k <= b <= v.len(),
            r@ == lowercase(v@.subrange(a as int, a as int + (k - a) as int)),
        decreases b - k,
    {
        r.push(ascii_lower_exec(v[k]));
        k += 1;
        assert(r@ =~= lowercase(v@.subrange(a as int, a as int + (k - a) as int)));
    }
    r
}

/// The parts of an address the checks read: scheme, port (the scheme's
/// default when none is written), host, and the host again when it is a
/// domain name rather than an IP address.
#[derive(Debug)]
pub struct UrlParts {
    pub scheme: String,
    pub port: Option<u16>,
    pub host: Option<String>,
    pub domain: Option<String>,
}

pub open spec fn opt_text(v: Option<String>) -> Option<Seq<char>> {
    match v {
        Some(h) => Some(h@),
        None => None,
    }
}

pub open spec fn parts_view(p: UrlParts) -> (Seq<char>, Option<u16>, Option<Seq<char>>, Option<Seq<char>>) {
    (p.scheme@, p.port, opt_text(p.host), opt_text(p.domain))
}

/// What the `url` crate reads from `raw`: scheme, port or the scheme's
/// known default, host, and the host when it is a domain name; `None` when
/// it does not parse.
pub uninterp spec fn url_parts(raw: Seq<char>) -> Option<(Seq<char>, Option<u16>, Option<Seq<char>>, Option<Seq<char>>)>;

/// `reqwest::Url::parse(raw)` (the `url` crate's `Url`), then `scheme()`,
/// `port_or_known_default()`, `host_str()` and `domain()`. Of `domain()`
/// the source shows that it is `None` exactly when there is no host or the
/// host is an IPv4 or IPv6 address; the contract claims only that the
/// result is a function of the text.
#[verifier::external_body]
fn parse_url(raw: &str) -> (r: Option<UrlParts>)
    ensures
        match r {
            Some(p) => url_parts(raw@) == Some(parts_view(p)),
            None => url_parts(raw@) is None,
        },
{
    match reqwest::Url::parse(raw) {
        Ok(u) => Some(UrlParts {
            scheme: u.scheme().to_string(),
            port: u.port_or_known_default(),
            host: u.host_str().map(|h| h.to_string()),
            domain: u.domain().map(|h| h.to_string()),
        }),
        Err(_) => None,
    }
}

/// Where an accepted address points: the checked host and the port.
#[derive(Debug)]
pub struct UrlTarget {
    pub host: String,
    pub port: u16,
}

pub open spec fn msg_invalid() -> Seq<char> {
    "Neplatná adresa"@
}

pub open spec fn msg_not_https() -> Seq<char> {
    "Adresa musí začínat https://"@
}

pub open spec fn msg_port() -> Seq<char> {
    "Povolený port je jen 443 nebo 8443"@
}

pub open spec fn msg_no_host() -> Seq<char> {
    "Adresa nemá doménu"@
}

pub open spec fn msg_local() -> Seq<char> {
    "Lokální adresy nejsou povolené"@
}

pub open spec fn msg_ip() -> Seq<char> {
    "IP adresy nejsou povolené, použij doménu"@
}

pub open spec fn msg_private() -> Seq<char> {
    "Adresa směřuje do lokální sítě, to není povolené"@
}

pub open spec fn has_suffix(s: Seq<char>, p: Seq<char>) -> bool {
    p.len() <= s.len() && s.skip(s.len() - p.len()) == p
}

/// The verdict on the address `raw` from what it says (the network is not
/// asked): the target, or the message for the user. A host that is an IP
/// address, not a domain name, is refused.
pub open spec fn url_verdict(raw: Seq<char>) -> Result<(Seq<char>, u16), Seq<char>> {
    match url_parts(raw) {
        None => Err(msg_invalid()),
        Some((scheme, port, host, domain)) => if scheme != "https"@ {
            Err(msg_not_https())
        } else if !(port == Some(443u16) || port == Some(8443u16)) {
            Err(msg_port())
        } else {
            match host {
                None => Err(msg_no_host()),
                Some(h) => {
                    let k = host_key(h);
                    if k == "localhost"@ || has_suffix(k, ".local"@) {
                        Err(msg_local())
                    } else if domain is None {
                        Err(msg_ip())
                    } else {
                        Ok((k, port->0))
                    }
                },
            }
        },
    }
}

fn ends_with_chars(s: &Vec<char>, p: &Vec<char>) -> (b: bool)
    ensures
        b == has_suffix(s@, p@),
{
    if p.len() > s.len() {
        return false;
    }
    let off = s.len() - p.len();
    let mut i: usize = 0;
    while i < p.len()
        invariant
            i <= p.len(),
            off + p.len() == s.len(),
            forall|k: int| 0 <= k < i ==> s@[off + k] == p@[k],
        decreases p.len() - i,
    {
        if s[off + i] != p[i] {
            assert(s@.skip(off as int)[i as int] != p@[i as int]);
            return false;
        }
        i += 1;
    }
    assert(s@.skip(off as int) =~= p@);
    true
}

/// Checks the address of a feed without asking the network: it must
/// parse, use https, port 443 or 8443, and name a host that is neither
/// localhost nor under `.local` nor an IP address. Gives the lower-cased
/// host and the port to resolve, or the message for the user. The address
/// is never logged: it carries a token.
pub fn validate_url(raw: &str) -> (r: Result<UrlTarget, String>)
    ensures
        match r {
            Ok(t) => url_verdict(raw@) == Ok::<(Seq<char>, u16), Seq<char>>((t.host@, t.port)),
            Err(e) => url_verdict(raw@) == Err::<(Seq<char>, u16), Seq<char>>(e@),
        },
{
    let parts = match parse_url(raw) {
        Some(p) => p,
        None => return Err("Neplatná adresa".to_owned()),
    };
    if !same_text(parts.scheme.as_str(), "https") {
        return Err("Adresa musí začínat https://".to_owned());
    }
    let port: u16 = match parts.port {
        Some(p) => {
            if p != 443 && p != 8443 {
                return Err("Povolený port je jen 443 nebo 8443".to_owned());
            }
            p
        },
        None => return Err("Povolený port je jen 443 nebo 8443".to_owned()),
    };
    let host = match &parts.host {
        Some(h) => h,
        None => return Err("Adresa nemá doménu".to_owned()),
    };
    let key = host_key_exec(host.as_str());
    let key_text = string_of(&key);
    if same_text(key_text.as_str(), "localhost") || ends_with_chars(&key, &chars_of(".local")) {
        return Err("Lokální adresy nejsou povolené".to_owned());
    }
    if parts.domain.is_none() {
        return Err("IP adresy nejsou povolené, použij doménu".to_owned());
    }
    Ok(UrlTarget { host: key_text, port })
}

/// An address a host resolved to.
#[derive(Debug, Clone, Copy)]
pub enum IpAddress {
    V4([u8; 4]),
    V6([u16; 8]),
}

/// IPv4 addresses the feed may not point at: loopback, private networks,
/// link-local, multicast, broadcast, unspecified, "this network" (0/8)
/// and shared address space (100.64.0.0/10).
pub open spec fn v4_forbidden(o: Seq<u8>) -> bool {
    ||| o[0] == 127
    ||| o[0] == 10
    ||| (o[0] == 172 && 16 <= o[1] <= 31)
    ||| (o[0] == 192 && o[1] == 168)
    ||| (o[0] == 169 && o[1] == 254)
    ||| (224 <= o[0] <= 239)
    ||| (o[0] == 255 && o[1] == 255 && o[2] == 255 && o[3] == 255)
    ||| o[0] == 0
    ||| (o[0] == 100 && 64 <= o[1] <= 127)
}

/// The IPv4 address inside an IPv4-mapped IPv6 address (`::ffff:a.b.c.d`).
pub open spec fn mapped_v4(s: Seq<u16>) -> Option<Seq<u8>> {
    if s[0] == 0 && s[1] == 0 && s[2] == 0 && s[3] == 0 && s[4] == 0 && s[5] == 0xffff {
        Some(seq![(s[6] / 256) as u8, (s[6] % 256) as u8, (s[7] / 256) as u8, (s[7] % 256) as u8])
    } else {
        None
    }
}

/// IPv6 addresses the feed may not point at: loopback, multicast,
/// unspecified, unique local (fc00::/7), link-local (fe80::/10) and
/// IPv4-mapped addresses of forbidden IPv4 ones.
pub open spec fn v6_forbidden(s: Seq<u16>) -> bool {
    let zero_head = s[0] == 0 && s[1] == 0 && s[2] == 0 && s[3] == 0 && s[4] == 0 && s[5] == 0 && s[6] == 0;
    ||| (zero_head && s[7] == 1)
    ||| s[0] >= 0xff00
    ||| (zero_head && s[7] == 0)
    ||| (0xfc00 <= s[0] <= 0xfdff)
    ||| (0xfe80 <= s[0] <= 0xfebf)
    ||| (mapped_v4(s) matches Some(o) && v4_forbidden(o))
}

pub open spec fn ip_forbidden(ip: IpAddress) -> bool {
    match ip {
        IpAddress::V4(o) => v4_forbidden(o@),
        IpAddress::V6(s) => v6_forbidden(s@),
    }
}

/// Of the addresses 172.x.y.z only the private block 172.16.0.0/12 is
/// forbidden; of 10.x.y.z and 192.168.x.y every one is; an address outside
/// loopback, the private and link-local blocks, multicast, broadcast,
/// 0/8 and 100.64.0.0/10 may be fetched from.
pub proof fn private_ipv4_blocks_are_exact(a: u8, b: u8, c: u8, d: u8)
    ensures
        a == 172 ==> (ip_forbidden(IpAddress::V4([a, b, c, d])) <==> 16 <= b <= 31),
        a == 10 ==> ip_forbidden(IpAddress::V4([a, b, c, d])),
        a == 192 && b == 168 ==> ip_forbidden(IpAddress::V4([a, b, c, d])),
        a != 127 && a != 10 && a != 172 && a != 192 && a != 169 && !(224 <= a <= 239) && a != 255 && a != 0
            && a != 100 ==> !ip_forbidden(IpAddress::V4([a, b, c, d])),
{
    let o = [a, b, c, d];
    assert(o@[0] == a && o@[1] == b && o@[2] == c && o@[3] == d);
}

fn v4_forbidden_exec(o: [u8; 4]) -> (b: bool)
    ensures
        b == v4_forbidden(o@),
{
    let a = o[0];
    let b1 = o[1];
    a == 127 || a == 10 || (a == 172 && 16 <= b1 && b1 <= 31) || (a == 192 && b1 == 168) || (a == 169 && b1 == 254)
        || (224 <= a && a <= 239) || (a == 255 && b1 == 255 && o[2] == 255 && o[3] == 255) || a == 0 || (a == 100
        && 64 <= b1 && b1 <= 127)
}

/// Is `ip` an address a feed may not be fetched from?
pub fn is_forbidden_ip(ip: &IpAddress) -> (b: bool)
    ensures
        b == ip_forbidden(*ip),
{
    match ip {
        IpAddress::V4(o) => v4_forbidden_exec(*o),
        IpAddress::V6(s) => {
            let zero_head = s[0] == 0 && s[1] == 0 && s[2] == 0 && s[3] == 0 && s[4] == 0 && s[5] == 0 && s[6] == 0;
            if (zero_head && s[7] == 1) || s[0] >= 0xff00 || (zero_head && s[7] == 0) || (0xfc00 <= s[0] && s[0] <= 0xfdff)
                || (0xfe80 <= s[0] && s[0] <= 0xfebf) {
                return true;
            }
            if s[0] == 0 && s[1] == 0 && s[2] == 0 && s[3] == 0 && s[4] == 0 && s[5] == 0xffff {
                let o: [u8; 4] = [(s[6] / 256) as u8, (s[6] % 256) as u8, (s[7] / 256) as u8, (s[7] % 256) as u8];
                assert(o@ =~= mapped_v4(s@)->0);
                v4_forbidden_exec(o)
            } else {
                false
            }
        },
    }
}

/// The verdict on the host of an address `validate_url` accepted: it must
/// resolve, and only to addresses a feed may be fetched from (`resolved`
/// is `None` when resolving failed).
pub open spec fn host_verdict(resolved: Option<Seq<IpAddress>>) -> Result<(), Seq<char>> {
    match resolved {
        Some(a) => if a.len() > 0 && forall|i: int| 0 <= i < a.len() ==> !ip_forbidden(#[trigger] a[i]) {
            Ok(())
        } else {
            Err(msg_private())
        },
        None => Err(msg_private()),
    }
}

/// Judges the host of an accepted address by what it resolves to right
/// now: a guard against DNS rebinding into a private network.
pub fn judge_host(resolved: &Option<Vec<IpAddress>>) -> (r: Result<(), String>)
    ensures
        match r {
            Ok(_) => host_verdict(match resolved {
                Some(a) => Some(a@),
                None => None,
            }) is Ok,
            Err(e) => host_verdict(match resolved {
                Some(a) => Some(a@),
                None => None,
            }) == Err::<(), Seq<char>>(e@),
        },
{
    match resolved {
        Some(a) => {
            if a.len() == 0 {
                return Err("Adresa směřuje do lokální sítě, to není povolené".to_owned());
            }
            let mut i: usize = 0;
            while i < a.len()
                invariant
                    i <= a.len(),
                    *resolved matches Some(x) && x@ == a@,
                    forall|k: int| 0 <= k < i ==> !ip_forbidden(#[trigger] a@[k]),
                decreases a.len() - i,
            {
                if is_forbidden_ip(&a[i]) {
                    assert(ip_forbidden(a@[i as int]));
                    return Err("Adresa směřuje do lokální sítě, to není povolené".to_owned());
                }
                i += 1;
            }
            Ok(())
        },
        None => Err("Adresa směřuje do lokální sítě, to není povolené".to_owned()),
    }
}

} // verus!
