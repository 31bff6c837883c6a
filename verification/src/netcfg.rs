//! Audit of the network configuration: gateway, routes, DNS and LAN
//! neighbours, and the host firewall.
//!
//! A compromised router hands out its configuration through DHCP (DNS,
//! gateway, routes). The DNS servers in use are classified here, and those
//! that are not known public resolvers are reported: the classic sign of DNS
//! hijacking from the local network.
use crate::analysis::{zone_chars, zone_of, Zone};
use crate::text::{
    append_chars, chars_of, find_char, find_char_in, is_lit, lines, lines_of, piece_len,
    scan_to_char, slice_of, split_words, starts_with, starts_with_lit, string_of, tokens,
    trim, trim_of, upper_all, upper_seq, views,
};
use vstd::prelude::*;

verus! {

/// Known public resolvers (Quad9, Cloudflare, Google, OpenDNS, AdGuard,
/// Tailscale MagicDNS, the systemd-resolved stub).
pub open spec fn known_dns(ip: Seq<char>) -> bool {
    ||| ip == "9.9.9.9"@
    ||| ip == "149.112.112.112"@
    ||| ip == "9.9.9.10"@
    ||| ip == "149.112.112.10"@
    ||| ip == "9.9.9.11"@
    ||| ip == "149.112.112.11"@
    ||| ip == "1.1.1.1"@
    ||| ip == "1.0.0.1"@
    ||| ip == "1.1.1.2"@
    ||| ip == "1.0.0.2"@
    ||| ip == "1.1.1.3"@
    ||| ip == "1.0.0.3"@
    ||| ip == "8.8.8.8"@
    ||| ip == "8.8.4.4"@
    ||| ip == "208.67.222.222"@
    ||| ip == "208.67.220.220"@
    ||| ip == "94.140.14.14"@
    ||| ip == "94.140.15.15"@
    ||| ip == "100.100.100.100"@
    ||| ip == "127.0.0.53"@
    ||| ip == "2620:fe::fe"@
    ||| ip == "2620:fe::9"@
    ||| ip == "2606:4700:4700::1111"@
    ||| ip == "2606:4700:4700::1001"@
    ||| ip == "2001:4860:4860::8888"@
    ||| ip == "2001:4860:4860::8844"@
    ||| ip == "fd7a:115c:a1e0::53"@
}

fn is_known_dns(ip: &Vec<char>) -> (r: bool)
    ensures
        r == known_dns(ip@),
{
    is_lit(ip, "9.9.9.9") || is_lit(ip, "149.112.112.112") || is_lit(ip, "9.9.9.10") || is_lit(
        ip,
        "149.112.112.10",
    ) || is_lit(ip, "9.9.9.11") || is_lit(ip, "149.112.112.11") || is_lit(ip, "1.1.1.1") || is_lit(
        ip,
        "1.0.0.1",
    ) || is_lit(ip, "1.1.1.2") || is_lit(ip, "1.0.0.2") || is_lit(ip, "1.1.1.3") || is_lit(ip, "1.0.0.3") || is_lit(
        ip,
        "8.8.8.8",
    ) || is_lit(ip, "8.8.4.4") || is_lit(ip, "208.67.222.222") || is_lit(ip, "208.67.220.220") || is_lit(
        ip,
        "94.140.14.14",
    ) || is_lit(ip, "94.140.15.15") || is_lit(ip, "100.100.100.100") || is_lit(ip, "127.0.0.53") || is_lit(
        ip,
        "2620:fe::fe",
    ) || is_lit(ip, "2620:fe::9") || is_lit(ip, "2606:4700:4700::1111") || is_lit(ip, "2606:4700:4700::1001")
        || is_lit(ip, "2001:4860:4860::8888") || is_lit(ip, "2001:4860:4860::8844") || is_lit(
        ip,
        "fd7a:115c:a1e0::53",
    )
}

#[derive(Debug, Clone, Copy, PartialEq, Eq, Structural)]
pub enum DnsClass {
    /// A known, trusted public resolver.
    Known,
    /// A local/LAN address: usually the router itself doing DNS.
    Local,
    /// A public address that is not recognised: suspicious.
    UnknownPublic,
}

pub open spec fn dns_class(ip: Seq<char>) -> DnsClass {
    if known_dns(ip) {
        DnsClass::Known
    } else if zone_of(ip) == Zone::Public {
        DnsClass::UnknownPublic
    } else {
        DnsClass::Local
    }
}

/// The known public resolvers are trusted: Quad9 (9.9.9.9, 149.112.112.112
/// and their filtered variants), Cloudflare (1.1.1.1, 1.0.0.1 and the 1.1.1.2/3,
/// 1.0.0.2/3 families), Google (8.8.8.8, 8.8.4.4), OpenDNS, AdGuard, Tailscale
/// MagicDNS (100.100.100.100, fd7a:115c:a1e0::53), the systemd-resolved stub
/// (127.0.0.53) and the IPv6 addresses of Quad9, Cloudflare and Google.
pub proof fn law_known_resolvers()
    ensures
        dns_class("9.9.9.9"@) == DnsClass::Known,
        dns_class("149.112.112.112"@) == DnsClass::Known,
        dns_class("9.9.9.10"@) == DnsClass::Known,
        dns_class("149.112.112.10"@) == DnsClass::Known,
        dns_class("9.9.9.11"@) == DnsClass::Known,
        dns_class("149.112.112.11"@) == DnsClass::Known,
        dns_class("1.1.1.1"@) == DnsClass::Known,
        dns_class("1.0.0.1"@) == DnsClass::Known,
        dns_class("1.1.1.2"@) == DnsClass::Known,
        dns_class("1.0.0.2"@) == DnsClass::Known,
        dns_class("1.1.1.3"@) == DnsClass::Known,
        dns_class("1.0.0.3"@) == DnsClass::Known,
        dns_class("8.8.8.8"@) == DnsClass::Known,
        dns_class("8.8.4.4"@) == DnsClass::Known,
        dns_class("208.67.222.222"@) == DnsClass::Known,
        dns_class("208.67.220.220"@) == DnsClass::Known,
        dns_class("94.140.14.14"@) == DnsClass::Known,
        dns_class("94.140.15.15"@) == DnsClass::Known,
        dns_class("100.100.100.100"@) == DnsClass::Known,
        dns_class("127.0.0.53"@) == DnsClass::Known,
        dns_class("2620:fe::fe"@) == DnsClass::Known,
        dns_class("2620:fe::9"@) == DnsClass::Known,
        dns_class("2606:4700:4700::1111"@) == DnsClass::Known,
        dns_class("2606:4700:4700::1001"@) == DnsClass::Known,
        dns_class("2001:4860:4860::8888"@) == DnsClass::Known,
        dns_class("2001:4860:4860::8844"@) == DnsClass::Known,
        dns_class("fd7a:115c:a1e0::53"@) == DnsClass::Known,
{
}

/// Classifies the address of a DNS server.
pub fn classify_dns(ip: &str) -> (c: DnsClass)
    ensures
        c == dns_class(ip@),
{
    let v = chars_of(ip);
    classify_dns_chars(&v)
}

fn classify_dns_chars(ip: &Vec<char>) -> (c: DnsClass)
    ensures
        c == dns_class(ip@),
{
    if is_known_dns(ip) {
        return DnsClass::Known;
    }
    match zone_chars(ip) {
        Zone::Public => DnsClass::UnknownPublic,
        _ => DnsClass::Local,
    }
}

// ---------------------------------------------------------------------------
// Address-like tokens
// ---------------------------------------------------------------------------

pub open spec fn ip_char(c: char) -> bool {
    crate::text::is_hex_digit(c) || c == '.' || c == ':'
}

/// Non-empty, holds a `.` or a `:`, and only hex digits, `.` and `:`.
pub open spec fn looks_like_ip_spec(s: Seq<char>) -> bool {
    &&& s.len() > 0
    &&& (find_char(s, '.') is Some || find_char(s, ':') is Some)
    &&& forall|i: int| 0 <= i < s.len() ==> ip_char(#[trigger] s[i])
}

pub fn looks_like_ip(s: &str) -> (r: bool)
    ensures
        r == looks_like_ip_spec(s@),
{
    let v = chars_of(s);
    looks_like_ip_chars(&v)
}

fn looks_like_ip_chars(s: &Vec<char>) -> (r: bool)
    ensures
        r == looks_like_ip_spec(s@),
{
    if s.len() == 0 {
        return false;
    }
    if find_char_in(s, '.').is_none() && find_char_in(s, ':').is_none() {
        return false;
    }
    let mut i: usize = 0;
    while i < s.len()
        invariant
            i <= s.len(),
            forall|k: int| 0 <= k < i ==> ip_char(#[trigger] s@[k]),
        decreases s.len() - i,
    {
        let c = s[i];
        if !(('0' <= c && c <= '9') || ('a' <= c && c <= 'f') || ('A' <= c && c <= 'F') || c == '.'
            || c == ':') {
            assert(!ip_char(s@[i as int]));
            return false;
        }
        i = i + 1;
    }
    true
}

// ---------------------------------------------------------------------------
// Gateways (`ip -4 route`)
// ---------------------------------------------------------------------------

/// The gateway and device named after `via` and `dev` in a route's tokens
/// (a keyword with nothing after it yields an empty value and ends the scan).
pub open spec fn scan_route(t: Seq<Seq<char>>, gw: Seq<char>, dev: Seq<char>) -> (Seq<char>, Seq<char>)
    decreases t.len(),
{
    if t.len() == 0 {
        (gw, dev)
    } else if t[0] == "via"@ {
        if t.len() >= 2 {
            scan_route(t.skip(2), t[1], dev)
        } else {
            (seq![], dev)
        }
    } else if t[0] == "dev"@ {
        if t.len() >= 2 {
            scan_route(t.skip(2), gw, t[1])
        } else {
            (gw, seq![])
        }
    } else {
        scan_route(t.drop_first(), gw, dev)
    }
}

/// What a route line contributes: `gw` or `gw (dev iface)` for a `default`
/// route with a gateway, nothing otherwise.
pub open spec fn route_entry(line: Seq<char>) -> Seq<Seq<char>> {
    let t = tokens(line);
    if t.len() > 0 && t[0] == "default"@ {
        let (gw, dev) = scan_route(t, seq![], seq![]);
        if gw.len() == 0 {
            seq![]
        } else if dev.len() == 0 {
            seq![gw]
        } else {
            seq![gw + " (dev "@ + dev + ")"@]
        }
    } else {
        seq![]
    }
}

pub open spec fn route_entries(ls: Seq<Seq<char>>) -> Seq<Seq<char>>
    decreases ls.len(),
{
    if ls.len() == 0 {
        seq![]
    } else {
        route_entries(ls.drop_last()) + route_entry(ls.last())
    }
}

pub open spec fn strings(v: Seq<String>) -> Seq<Seq<char>> {
    v.map_values(|s: String| s@)
}

fn scan_route_of(t: &Vec<Vec<char>>) -> (r: (Vec<char>, Vec<char>))
    ensures
        (r.0@, r.1@) == scan_route(views(t@), seq![], seq![]),
{
    let ghost tv = views(t@);
    let mut gw: Vec<char> = Vec::new();
    let mut dev: Vec<char> = Vec::new();
    let mut k: usize = 0;
    assert(tv.skip(0) =~= tv);
    while k < t.len()
        invariant
            k <= t.len(),
            tv == views(t@),
            scan_route(tv, seq![], seq![]) == scan_route(tv.skip(k as int), gw@, dev@),
        decreases t.len() - k,
    {
        let ghost rest = tv.skip(k as int);
        assert(rest[0] == t@[k as int]@);
        if is_lit(&t[k], "via") {
            if k + 1 < t.len() {
                assert(rest[1] == t@[k + 1]@);
                assert(rest.skip(2) =~= tv.skip(k + 2));
                gw = slice_of(&t[k + 1], 0, t[k + 1].len());
                assert(gw@ =~= t@[k + 1]@);
                k = k + 2;
            } else {
                gw = Vec::new();
                assert(gw@ =~= Seq::<char>::empty());
                assert(tv.skip(t.len() as int) =~= Seq::<Seq<char>>::empty());
                k = t.len();
            }
        } else if is_lit(&t[k], "dev") {
            if k + 1 < t.len() {
                assert(rest[1] == t@[k + 1]@);
                assert(rest.skip(2) =~= tv.skip(k + 2));
                dev = slice_of(&t[k + 1], 0, t[k + 1].len());
                assert(dev@ =~= t@[k + 1]@);
                k = k + 2;
            } else {
                dev = Vec::new();
                assert(dev@ =~= Seq::<char>::empty());
                assert(tv.skip(t.len() as int) =~= Seq::<Seq<char>>::empty());
                k = t.len();
            }
        } else {
            assert(rest.drop_first() =~= tv.skip(k + 1));
            k = k + 1;
        }
    }
    assert(tv.skip(k as int) =~= Seq::<Seq<char>>::empty());
    (gw, dev)
}

/// Default gateways in the output of `ip -4 route` (lines
/// `default via X dev Y`), as `X (dev Y)`.
pub fn gateways(out: &str) -> (r: Vec<String>)
    ensures
        strings(r@) == route_entries(lines(out@)),
{
    let c = chars_of(out);
    let ls = lines_of(&c);
    let ghost lv = views(ls@);
    let mut r: Vec<String> = Vec::new();
    let mut i: usize = 0;
    while i < ls.len()
        invariant
            i <= ls.len(),
            lv == views(ls@),
            strings(r@) == route_entries(lv.take(i as int)),
        decreases ls.len() - i,
    {
        let ghost prev = strings(r@);
        assert(lv.take(i + 1).drop_last() =~= lv.take(i as int));
        assert(lv.take(i + 1).last() == ls@[i as int]@);
        let t = split_words(&ls[i]);
        if t.len() > 0 && is_lit(&t[0], "default") {
            let (gw, dev) = scan_route_of(&t);
            if gw.len() > 0 {
                let mut e = string_of(&gw);
                if dev.len() > 0 {
                    e.append(" (dev ");
                    append_chars(&mut e, &dev);
                    e.append(")");
                }
                r.push(e);
                assert(strings(r@) =~= prev + route_entry(ls@[i as int]@));
            } else {
                assert(route_entry(ls@[i as int]@) =~= Seq::<Seq<char>>::empty());
                assert(strings(r@) =~= prev + route_entry(ls@[i as int]@));
            }
        } else {
            assert(route_entry(ls@[i as int]@) =~= Seq::<Seq<char>>::empty());
            assert(strings(r@) =~= prev + route_entry(ls@[i as int]@));
        }
        i = i + 1;
    }
    assert(lv.take(ls.len() as int) =~= lv);
    r
}

} // verus!

verus! {

// ---------------------------------------------------------------------------
// DNS servers (`resolvectl status`, `/etc/resolv.conf`)
// ---------------------------------------------------------------------------

/// The addresses among `tokens`, each cut at `#` (`9.9.9.9#dns.quad9.net`).
pub open spec fn token_ips(t: Seq<Seq<char>>) -> Seq<Seq<char>>
    decreases t.len(),
{
    if t.len() == 0 {
        seq![]
    } else {
        let ip = t.last().take(piece_len(t.last(), '#') as int);
        token_ips(t.drop_last()) + if looks_like_ip_spec(ip) {
            seq![ip]
        } else {
            seq![]
        }
    }
}

/// Addresses on a `DNS Servers:` or `Current DNS Server:` line of `resolvectl status`.
pub open spec fn resolvectl_line_ips(line: Seq<char>) -> Seq<Seq<char>> {
    let l = trim(line);
    if starts_with(l, "DNS Servers:"@) || starts_with(l, "Current DNS Server:"@) {
        match find_char(l, ':') {
            Some(i) => token_ips(tokens(l.skip(i + 1))),
            None => seq![],
        }
    } else {
        seq![]
    }
}

pub open spec fn resolvectl_ips(ls: Seq<Seq<char>>) -> Seq<Seq<char>>
    decreases ls.len(),
{
    if ls.len() == 0 {
        seq![]
    } else {
        resolvectl_ips(ls.drop_last()) + resolvectl_line_ips(ls.last())
    }
}

/// Address on a `nameserver` line of `resolv.conf`.
pub open spec fn resolv_conf_line_ip(line: Seq<char>) -> Seq<Seq<char>> {
    let l = trim(line);
    if starts_with(l, "nameserver"@) {
        let ip = trim(l.skip(10));
        if looks_like_ip_spec(ip) {
            seq![ip]
        } else {
            seq![]
        }
    } else {
        seq![]
    }
}

pub open spec fn resolv_conf_ips(ls: Seq<Seq<char>>) -> Seq<Seq<char>>
    decreases ls.len(),
{
    if ls.len() == 0 {
        seq![]
    } else {
        resolv_conf_ips(ls.drop_last()) + resolv_conf_line_ip(ls.last())
    }
}

/// The first occurrence of each element, in order.
pub open spec fn dedup(s: Seq<Seq<char>>) -> Seq<Seq<char>>
    decreases s.len(),
{
    if s.len() == 0 {
        seq![]
    } else {
        let d = dedup(s.drop_last());
        if d.contains(s.last()) {
            d
        } else {
            d.push(s.last())
        }
    }
}

/// DNS servers in use: those of `resolvectl status`, or else those of
/// `/etc/resolv.conf`; without repeats, in order.
pub open spec fn dns_servers_spec(resolvectl: Option<Seq<char>>, resolv_conf: Option<Seq<char>>) -> Seq<Seq<char>> {
    let first = match resolvectl {
        Some(out) => resolvectl_ips(lines(out)),
        None => seq![],
    };
    let ips = if first.len() == 0 {
        match resolv_conf {
            Some(c) => resolv_conf_ips(lines(c)),
            None => seq![],
        }
    } else {
        first
    };
    dedup(ips)
}

pub open spec fn opt_view(o: Option<&str>) -> Option<Seq<char>> {
    match o {
        Some(s) => Some(s@),
        None => None,
    }
}

pub open spec fn classified(v: Seq<(String, DnsClass)>) -> Seq<(Seq<char>, DnsClass)> {
    v.map_values(|e: (String, DnsClass)| (e.0@, e.1))
}

pub open spec fn with_class(ips: Seq<Seq<char>>) -> Seq<(Seq<char>, DnsClass)> {
    ips.map_values(|ip: Seq<char>| (ip, dns_class(ip)))
}

fn push_token_ips(out: &mut Vec<Vec<char>>, t: &Vec<Vec<char>>)
    ensures
        views(final(out)@) == views(old(out)@) + token_ips(views(t@)),
{
    let ghost start = views(out@);
    let ghost tv = views(t@);
    let mut k: usize = 0;
    while k < t.len()
        invariant
            k <= t.len(),
            tv == views(t@),
            views(out@) == start + token_ips(tv.take(k as int)),
        decreases t.len() - k,
    {
        assert(tv.take(k + 1).drop_last() =~= tv.take(k as int));
        assert(tv.take(k + 1).last() == t@[k as int]@);
        let tok = &t[k];
        let e = scan_to_char(tok, 0, '#');
        assert(tok@.skip(0) =~= tok@);
        let ip = slice_of(tok, 0, e);
        assert(ip@ =~= tok@.take(piece_len(tok@, '#') as int));
        let ghost before = views(out@);
        if looks_like_ip_chars(&ip) {
            out.push(ip);
            assert(views(out@) =~= before + seq![ip@]);
        }
        assert(views(out@) =~= start + token_ips(tv.take(k + 1)));
        k = k + 1;
    }
    assert(tv.take(t.len() as int) =~= tv);
}

fn resolvectl_ips_of(out: &str) -> (r: Vec<Vec<char>>)
    ensures
        views(r@) == resolvectl_ips(lines(out@)),
{
    let c = chars_of(out);
    let ls = lines_of(&c);
    let ghost lv = views(ls@);
    let mut r: Vec<Vec<char>> = Vec::new();
    let mut i: usize = 0;
    while i < ls.len()
        invariant
            i <= ls.len(),
            lv == views(ls@),
            views(r@) == resolvectl_ips(lv.take(i as int)),
        decreases ls.len() - i,
    {
        assert(lv.take(i + 1).drop_last() =~= lv.take(i as int));
        assert(lv.take(i + 1).last() == ls@[i as int]@);
        let ghost before = views(r@);
        let l = trim_of(&ls[i]);
        if starts_with_lit(&l, "DNS Servers:") || starts_with_lit(&l, "Current DNS Server:") {
            match find_char_in(&l, ':') {
                Some(p) => {
                    proof {
                        crate::text::lemma_piece_len(l@, ':');
                    }
                    let rest = slice_of(&l, p + 1, l.len());
                    assert(rest@ =~= l@.skip(p + 1));
                    let t = split_words(&rest);
                    push_token_ips(&mut r, &t);
                },
                None => {
                    assert(resolvectl_line_ips(ls@[i as int]@) =~= Seq::<Seq<char>>::empty());
                },
            }
        } else {
            assert(resolvectl_line_ips(ls@[i as int]@) =~= Seq::<Seq<char>>::empty());
        }
        assert(views(r@) =~= before + resolvectl_line_ips(ls@[i as int]@));
        i = i + 1;
    }
    assert(lv.take(ls.len() as int) =~= lv);
    r
}

fn resolv_conf_ips_of(content: &str) -> (r: Vec<Vec<char>>)
    ensures
        views(r@) == resolv_conf_ips(lines(content@)),
{
    let c = chars_of(content);
    let ls = lines_of(&c);
    let ghost lv = views(ls@);
    let mut r: Vec<Vec<char>> = Vec::new();
    let mut i: usize = 0;
    while i < ls.len()
        invariant
            i <= ls.len(),
            lv == views(ls@),
            views(r@) == resolv_conf_ips(lv.take(i as int)),
        decreases ls.len() - i,
    {
        assert(lv.take(i + 1).drop_last() =~= lv.take(i as int));
        assert(lv.take(i + 1).last() == ls@[i as int]@);
        let ghost before = views(r@);
        let l = trim_of(&ls[i]);
        if starts_with_lit(&l, "nameserver") {
            proof {
                reveal_strlit("nameserver");
            }
            let rest = slice_of(&l, 10, l.len());
            assert(rest@ =~= l@.skip(10));
            let ip = trim_of(&rest);
            if looks_like_ip_chars(&ip) {
                r.push(ip);
            }
        }
        assert(views(r@) =~= before + resolv_conf_line_ip(ls@[i as int]@));
        i = i + 1;
    }
    assert(lv.take(ls.len() as int) =~= lv);
    r
}

/// Whether `x` is among the character vectors of `v`.
pub fn contains_chars(v: &Vec<Vec<char>>, x: &Vec<char>) -> (r: bool)
    ensures
        r == views(v@).contains(x@),
{
    let mut i: usize = 0;
    while i < v.len()
        invariant
            i <= v.len(),
            forall|k: int| 0 <= k < i ==> (#[trigger] v@[k])@ != x@,
        decreases v.len() - i,
    {
        if crate::text::same(&v[i], x) {
            assert(views(v@)[i as int] == x@);
            return true;
        }
        i = i + 1;
    }
    assert forall|k: int| 0 <= k < views(v@).len() implies views(v@)[k] != x@ by {
        assert(views(v@)[k] == v@[k]@);
    }
    false
}

fn dedup_of(s: &Vec<Vec<char>>) -> (r: Vec<Vec<char>>)
    ensures
        views(r@) == dedup(views(s@)),
{
    let ghost sv = views(s@);
    let mut r: Vec<Vec<char>> = Vec::new();
    let mut i: usize = 0;
    while i < s.len()
        invariant
            i <= s.len(),
            sv == views(s@),
            views(r@) == dedup(sv.take(i as int)),
        decreases s.len() - i,
    {
        assert(sv.take(i + 1).drop_last() =~= sv.take(i as int));
        assert(sv.take(i + 1).last() == s@[i as int]@);
        if !contains_chars(&r, &s[i]) {
            let ghost before = views(r@);
            let e = slice_of(&s[i], 0, s[i].len());
            assert(e@ =~= s@[i as int]@);
            r.push(e);
            assert(views(r@) =~= before.push(e@));
        }
        i = i + 1;
    }
    assert(sv.take(s.len() as int) =~= sv);
    r
}

/// Effective DNS servers, classified: from the output of `resolvectl
/// status` (when it ran), or else from the content of `/etc/resolv.conf`.
pub fn dns_servers(resolvectl: Option<&str>, resolv_conf: Option<&str>) -> (r: Vec<(String, DnsClass)>)
    ensures
        classified(r@) == with_class(dns_servers_spec(opt_view(resolvectl), opt_view(resolv_conf))),
{
    let mut ips: Vec<Vec<char>> = match resolvectl {
        Some(out) => resolvectl_ips_of(out),
        None => Vec::new(),
    };
    if ips.len() == 0 {
        ips = match resolv_conf {
            Some(c) => resolv_conf_ips_of(c),
            None => Vec::new(),
        };
    }
    let ghost all = views(ips@);
    assert(all =~= (if (match opt_view(resolvectl) {
        Some(out) => resolvectl_ips(lines(out)),
        None => seq![],
    }).len() == 0 {
        match opt_view(resolv_conf) {
            Some(c) => resolv_conf_ips(lines(c)),
            None => seq![],
        }
    } else {
        match opt_view(resolvectl) {
            Some(out) => resolvectl_ips(lines(out)),
            None => seq![],
        }
    }));
    let d = dedup_of(&ips);
    let ghost dv = views(d@);
    let mut r: Vec<(String, DnsClass)> = Vec::new();
    let mut i: usize = 0;
    while i < d.len()
        invariant
            i <= d.len(),
            dv == views(d@),
            classified(r@) == with_class(dv.take(i as int)),
        decreases d.len() - i,
    {
        let c = classify_dns_chars(&d[i]);
        let ghost before = classified(r@);
        let e = string_of(&d[i]);
        r.push((e, c));
        assert(dv[i as int] == d@[i as int]@);
        assert(dv.take(i + 1) =~= dv.take(i as int).push(dv[i as int]));
        assert(classified(r@) =~= before.push((e@, c)));
        assert(classified(r@) =~= with_class(dv.take(i + 1)));
        i = i + 1;
    }
    assert(dv.take(d.len() as int) =~= dv);
    r
}

// ---------------------------------------------------------------------------
// Neighbours (`ip neigh`)
// ---------------------------------------------------------------------------

/// First position of `w` among the tokens.
pub open spec fn token_pos(t: Seq<Seq<char>>, w: Seq<char>) -> Option<int>
    decreases t.len(),
{
    if t.len() == 0 {
        None
    } else if t[0] == w {
        Some(0)
    } else {
        match token_pos(t.drop_first(), w) {
            Some(i) => Some(i + 1),
            None => None,
        }
    }
}

/// `(ip, mac, state)` of a line of `ip neigh`; lines with fewer than two
/// fields and unresolved entries (`FAILED`, `INCOMPLETE`) give nothing.
pub open spec fn neighbor_entry(line: Seq<char>) -> Seq<(Seq<char>, Seq<char>, Seq<char>)> {
    let t = tokens(line);
    if t.len() < 2 || t.last() == "FAILED"@ || t.last() == "INCOMPLETE"@ {
        seq![]
    } else {
        let mac = match token_pos(t, "lladdr"@) {
            Some(i) => if i + 1 < t.len() {
                t[i + 1]
            } else {
                "?"@
            },
            None => "?"@,
        };
        seq![(t[0], mac, t.last())]
    }
}

pub open spec fn neighbor_entries(ls: Seq<Seq<char>>) -> Seq<(Seq<char>, Seq<char>, Seq<char>)>
    decreases ls.len(),
{
    if ls.len() == 0 {
        seq![]
    } else {
        neighbor_entries(ls.drop_last()) + neighbor_entry(ls.last())
    }
}

pub open spec fn triples(v: Seq<(String, String, String)>) -> Seq<(Seq<char>, Seq<char>, Seq<char>)> {
    v.map_values(|e: (String, String, String)| (e.0@, e.1@, e.2@))
}

fn token_pos_of(t: &Vec<Vec<char>>, w: &str) -> (r: Option<usize>)
    ensures
        r matches Some(i) ==> token_pos(views(t@), w@) == Some(i as int),
        r is None ==> token_pos(views(t@), w@) is None,
{
    let ghost tv = views(t@);
    let mut i: usize = t.len();
    let mut found: Option<usize> = None;
    assert(tv.skip(t.len() as int) =~= Seq::<Seq<char>>::empty());
    while i > 0
        invariant
            i <= t.len(),
            tv == views(t@),
            found matches Some(f) ==> token_pos(tv.skip(i as int), w@) == Some(f - i),
            found matches Some(f) ==> i <= f,
            found is None ==> token_pos(tv.skip(i as int), w@) is None,
        decreases i,
    {
        i = i - 1;
        assert(tv.skip(i as int).drop_first() =~= tv.skip(i + 1));
        assert(tv.skip(i as int)[0] == t@[i as int]@);
        if is_lit(&t[i], w) {
            found = Some(i);
        }
    }
    assert(tv.skip(0) =~= tv);
    found
}

/// LAN neighbours in the output of `ip neigh`, as `(ip, mac, state)`.
pub fn neighbors(out: &str) -> (r: Vec<(String, String, String)>)
    ensures
        triples(r@) == neighbor_entries(lines(out@)),
{
    let c = chars_of(out);
    let ls = lines_of(&c);
    let ghost lv = views(ls@);
    let mut r: Vec<(String, String, String)> = Vec::new();
    let mut i: usize = 0;
    while i < ls.len()
        invariant
            i <= ls.len(),
            lv == views(ls@),
            triples(r@) == neighbor_entries(lv.take(i as int)),
        decreases ls.len() - i,
    {
        assert(lv.take(i + 1).drop_last() =~= lv.take(i as int));
        assert(lv.take(i + 1).last() == ls@[i as int]@);
        let ghost before = triples(r@);
        let t = split_words(&ls[i]);
        let ghost tv = views(t@);
        if t.len() >= 2 {
            let last = &t[t.len() - 1];
            assert(tv.last() == last@);
            if !is_lit(last, "FAILED") && !is_lit(last, "INCOMPLETE") {
                let mac = match token_pos_of(&t, "lladdr") {
                    Some(p) => if p < t.len() - 1 {
                        assert(tv[p + 1] == t@[p + 1]@);
                        string_of(&t[p + 1])
                    } else {
                        let mut q = String::new();
                        q.append("?");
                        q
                    },
                    None => {
                        let mut q = String::new();
                        q.append("?");
                        q
                    },
                };
                assert(tv[0] == t@[0]@);
                r.push((string_of(&t[0]), mac, string_of(last)));
                assert(triples(r@) =~= before + neighbor_entry(ls@[i as int]@));
            } else {
                assert(triples(r@) =~= before + neighbor_entry(ls@[i as int]@));
            }
        } else {
            assert(triples(r@) =~= before + neighbor_entry(ls@[i as int]@));
        }
        i = i + 1;
    }
    assert(lv.take(ls.len() as int) =~= lv);
    r
}

} // verus!

verus! {

// ---------------------------------------------------------------------------
// The audit
// ---------------------------------------------------------------------------

pub struct NetAudit {
    pub gateways: Vec<String>,
    pub dns: Vec<(String, DnsClass)>,
    /// `(ip, mac, state)`.
    pub neighbors: Vec<(String, String, String)>,
}

/// The warning for an unrecognised DNS server.
pub open spec fn dns_warning(ip: Seq<char>) -> Seq<char> {
    "DNS não reconhecido "@ + ip
        + " em uso — possivelmente entregue pelo roteador via DHCP; verifique o roteador"@
}

pub open spec fn dns_warnings(d: Seq<(Seq<char>, DnsClass)>) -> Seq<Seq<char>>
    decreases d.len(),
{
    if d.len() == 0 {
        seq![]
    } else {
        dns_warnings(d.drop_last()) + if d.last().1 == DnsClass::UnknownPublic {
            seq![dns_warning(d.last().0)]
        } else {
            seq![]
        }
    }
}

impl NetAudit {
    /// The audit of the outputs of `ip -4 route`, `resolvectl status` and
    /// `ip neigh`, and of the content of `/etc/resolv.conf` (`None` where a
    /// command failed or the file could not be read).
    pub fn collect(
        route: Option<&str>,
        resolvectl: Option<&str>,
        resolv_conf: Option<&str>,
        neigh: Option<&str>,
    ) -> (r: NetAudit)
        ensures
            strings(r.gateways@) == (match route {
                Some(o) => route_entries(lines(o@)),
                None => seq![],
            }),
            classified(r.dns@) == with_class(
                dns_servers_spec(opt_view(resolvectl), opt_view(resolv_conf)),
            ),
            triples(r.neighbors@) == (match neigh {
                Some(o) => neighbor_entries(lines(o@)),
                None => seq![],
            }),
    {
        let g = match route {
            Some(o) => gateways(o),
            None => Vec::new(),
        };
        let n = match neigh {
            Some(o) => neighbors(o),
            None => Vec::new(),
        };
        proof {
            if route is None {
                assert(strings(g@) =~= Seq::<Seq<char>>::empty());
            }
            if neigh is None {
                assert(triples(n@) =~= Seq::<(Seq<char>, Seq<char>, Seq<char>)>::empty());
            }
        }
        NetAudit { gateways: g, dns: dns_servers(resolvectl, resolv_conf), neighbors: n }
    }

    /// Actionable warnings: one per unrecognised public DNS server, in order.
    pub fn warnings(&self) -> (r: Vec<String>)
        ensures
            strings(r@) == dns_warnings(classified(self.dns@)),
    {
        let ghost d = classified(self.dns@);
        let mut r: Vec<String> = Vec::new();
        let mut i: usize = 0;
        while i < self.dns.len()
            invariant
                i <= self.dns.len(),
                d == classified(self.dns@),
                strings(r@) == dns_warnings(d.take(i as int)),
            decreases self.dns.len() - i,
        {
            let ghost before = strings(r@);
            assert(d.take(i + 1).drop_last() =~= d.take(i as int));
            assert(d.take(i + 1).last() == (self.dns@[i as int].0@, self.dns@[i as int].1));
            let (ip, c) = (&self.dns[i].0, self.dns[i].1);
            if c == DnsClass::UnknownPublic {
                let mut w = String::new();
                w.append("DNS não reconhecido ");
                w.append(ip.as_str());
                w.append(
                    " em uso — possivelmente entregue pelo roteador via DHCP; verifique o roteador",
                );
                r.push(w);
                assert(w@ =~= dns_warning(ip@));
                assert(strings(r@) =~= before.push(w@));
            } else {
                assert(strings(r@) =~= before);
            }
            assert(strings(r@) =~= dns_warnings(d.take(i + 1)));
            i = i + 1;
        }
        assert(d.take(self.dns.len() as int) =~= d);
        r
    }
}

// ---------------------------------------------------------------------------
// Firewall
// ---------------------------------------------------------------------------

/// State of the host firewall.
pub struct Firewall {
    pub backend: String,
    pub active: bool,
    pub default_zone: Option<String>,
    /// Incoming policy/target of the default zone (DROP/REJECT/default/ACCEPT).
    pub incoming: Option<String>,
}

/// A firewalld target that does block unsolicited incoming traffic.
pub open spec fn denies(t: Seq<char>) -> bool {
    let u = upper_seq(t);
    u == "DROP"@ || u == "REJECT"@ || u == "%%REJECT%%"@ || u == "DEFAULT"@
}

pub fn target_denies(t: &str) -> (r: bool)
    ensures
        r == denies(t@),
{
    let c = chars_of(t);
    let u = upper_all(&c);
    is_lit(&u, "DROP") || is_lit(&u, "REJECT") || is_lit(&u, "%%REJECT%%") || is_lit(&u, "DEFAULT")
}

/// The value of the first `target:` line of `firewall-cmd --zone=Z --list-all`.
pub open spec fn zone_target_spec(ls: Seq<Seq<char>>) -> Option<Seq<char>>
    decreases ls.len(),
{
    if ls.len() == 0 {
        None
    } else {
        let l = trim(ls[0]);
        if starts_with(l, "target:"@) {
            Some(trim(l.skip(7)))
        } else {
            zone_target_spec(ls.drop_first())
        }
    }
}

pub open spec fn opt_string(o: Option<String>) -> Option<Seq<char>> {
    match o {
        Some(s) => Some(s@),
        None => None,
    }
}

/// Target of a zone, from the output of `firewall-cmd --zone=<z> --list-all`.
pub fn zone_target(out: &str) -> (r: Option<String>)
    ensures
        opt_string(r) == zone_target_spec(lines(out@)),
{
    let c = chars_of(out);
    let ls = lines_of(&c);
    let ghost lv = views(ls@);
    let mut i: usize = 0;
    assert(lv.skip(0) =~= lv);
    while i < ls.len()
        invariant
            i <= ls.len(),
            lv == views(ls@),
            lv == lines(out@),
            zone_target_spec(lv) == zone_target_spec(lv.skip(i as int)),
        decreases ls.len() - i,
    {
        assert(lv.skip(i as int).drop_first() =~= lv.skip(i + 1));
        assert(lv.skip(i as int)[0] == ls@[i as int]@);
        let l = trim_of(&ls[i]);
        if starts_with_lit(&l, "target:") {
            proof {
                reveal_strlit("target:");
            }
            let rest = slice_of(&l, 7, l.len());
            assert(rest@ =~= l@.skip(7));
            let t = trim_of(&rest);
            return Some(string_of(&t));
        }
        i = i + 1;
    }
    None
}

/// `s` with surrounding whitespace removed (`str::trim`).
pub fn trimmed(s: &str) -> (r: String)
    ensures
        r@ == trim(s@),
{
    let c = chars_of(s);
    let t = trim_of(&c);
    string_of(&t)
}

fn trim_is(s: &String, lit: &str) -> (r: bool)
    ensures
        r == (trim(s@) == lit@),
{
    let c = chars_of(s.as_str());
    let t = trim_of(&c);
    is_lit(&t, lit)
}

/// What `Firewall::detect` reads from the system: the outputs of
/// `firewall-cmd --state`, `firewall-cmd --get-default-zone`,
/// `firewall-cmd --zone=<zone> --list-all` (for the trimmed default zone) and
/// `systemctl is-active` for `ufw`, `nftables` and `iptables` (`None` where
/// the command did not succeed), and whether `firewall-cmd` and `ufw` are
/// installed.
pub struct FirewallProbe {
    pub state: Option<String>,
    pub default_zone: Option<String>,
    pub zone_listing: Option<String>,
    pub ufw: Option<String>,
    pub nftables: Option<String>,
    pub iptables: Option<String>,
    pub has_firewall_cmd: bool,
    pub has_ufw: bool,
}

pub open spec fn says(o: Option<String>, word: Seq<char>) -> bool {
    match o {
        Some(s) => trim(s@) == word,
        None => false,
    }
}

impl Firewall {
    /// The firewall that the probe shows: firewalld when it runs (with its
    /// default zone and that zone's target), else the first active service of
    /// `ufw`, `nftables`, `iptables`, else an inactive one named after what is
    /// installed.
    pub open spec fn detected(self, p: FirewallProbe) -> bool {
        if says(p.state, "running"@) {
            let zone = match p.default_zone {
                Some(z) => Some(trim(z@)),
                None => None,
            };
            &&& self.backend@ == "firewalld"@
            &&& self.active
            &&& opt_string(self.default_zone) == zone
            &&& opt_string(self.incoming) == (match (zone, p.zone_listing) {
                (Some(_), Some(l)) => zone_target_spec(lines(l@)),
                _ => None,
            })
        } else if says(p.ufw, "active"@) || says(p.nftables, "active"@) || says(
            p.iptables,
            "active"@,
        ) {
            &&& self.backend@ == (if says(p.ufw, "active"@) {
                "ufw"@
            } else if says(p.nftables, "active"@) {
                "nftables"@
            } else {
                "iptables"@
            })
            &&& self.active
            &&& self.default_zone is None
            &&& self.incoming is None
        } else {
            &&& self.backend@ == (if p.has_firewall_cmd {
                "firewalld (parado)"@
            } else if p.has_ufw {
                "ufw (parado)"@
            } else {
                "nenhum"@
            })
            &&& !self.active
            &&& self.default_zone is None
            &&& self.incoming is None
        }
    }

    pub fn detect(p: &FirewallProbe) -> (r: Firewall)
        ensures
            r.detected(*p),
    {
        let running = match &p.state {
            Some(s) => trim_is(s, "running"),
            None => false,
        };
        if running {
            let zone = match &p.default_zone {
                Some(z) => Some(trimmed(z.as_str())),
                None => None,
            };
            let incoming = match (&zone, &p.zone_listing) {
                (Some(_), Some(l)) => zone_target(l.as_str()),
                _ => None,
            };
            let mut b = String::new();
            b.append("firewalld");
            return Firewall { backend: b, active: true, default_zone: zone, incoming };
        }
        let ufw = match &p.ufw {
            Some(s) => trim_is(s, "active"),
            None => false,
        };
        let nft = match &p.nftables {
            Some(s) => trim_is(s, "active"),
            None => false,
        };
        let ipt = match &p.iptables {
            Some(s) => trim_is(s, "active"),
            None => false,
        };
        if ufw || nft || ipt {
            let mut b = String::new();
            if ufw {
                b.append("ufw");
            } else if nft {
                b.append("nftables");
            } else {
                b.append("iptables");
            }
            return Firewall { backend: b, active: true, default_zone: None, incoming: None };
        }
        let mut b = String::new();
        if p.has_firewall_cmd {
            b.append("firewalld (parado)");
        } else if p.has_ufw {
            b.append("ufw (parado)");
        } else {
            b.append("nenhum");
        }
        Firewall { backend: b, active: false, default_zone: None, incoming: None }
    }

    /// `Some(true)` when incoming traffic is denied by default, `Some(false)`
    /// when it is accepted, `None` when that could not be told.
    pub fn deny_incoming(&self) -> (r: Option<bool>)
        ensures
            r == (match self.incoming {
                Some(t) => Some(denies(t@)),
                None => None,
            }),
    {
        match &self.incoming {
            Some(t) => Some(target_denies(t.as_str())),
            None => None,
        }
    }

    /// Warnings: the firewall is inactive, or its zone accepts incoming traffic.
    pub open spec fn warnings_spec(self) -> Seq<Seq<char>> {
        if !self.active {
            seq!["Firewall inativo — entrada da rede não está sendo filtrada"@]
        } else if self.incoming matches Some(t) && !denies(t@) {
            let z = match self.default_zone {
                Some(z) => z@,
                None => "padrão"@,
            };
            seq![
                "Firewall: zona '"@ + z + "' aceita entrada (ACCEPT) — máquina exposta na rede"@,
            ]
        } else {
            seq![]
        }
    }

    pub fn warnings(&self) -> (r: Vec<String>)
        ensures
            strings(r@) == self.warnings_spec(),
    {
        let mut w: Vec<String> = Vec::new();
        if !self.active {
            let mut s = String::new();
            s.append("Firewall inativo — entrada da rede não está sendo filtrada");
            w.push(s);
            assert(strings(w@) =~= self.warnings_spec());
        } else if self.deny_incoming() == Some(false) {
            let mut s = String::new();
            s.append("Firewall: zona '");
            match &self.default_zone {
                Some(z) => s.append(z.as_str()),
                None => s.append("padrão"),
            }
            s.append("' aceita entrada (ACCEPT) — máquina exposta na rede");
            w.push(s);
            assert(strings(w@) =~= self.warnings_spec());
        } else {
            assert(strings(w@) =~= self.warnings_spec());
        }
        w
    }
}

/// A DNS warning is raised exactly when some server in use is an
/// unrecognized public one: one warning per such server.
pub proof fn law_dns_warning_per_unknown(d: Seq<(Seq<char>, DnsClass)>)
    ensures
        dns_warnings(d).len() == 0 <==> forall|i: int| 0 <= i < d.len() ==> (#[trigger] d[i]).1 != DnsClass::UnknownPublic,
        dns_warnings(d).len() <= d.len(),
    decreases d.len(),
{
    if d.len() > 0 {
        law_dns_warning_per_unknown(d.drop_last());
        assert forall|i: int| 0 <= i < d.len() - 1 implies #[trigger] d.drop_last()[i] == d[i] by {}
        if dns_warnings(d).len() == 0 {
            assert forall|i: int| 0 <= i < d.len() implies (#[trigger] d[i]).1 != DnsClass::UnknownPublic by {
                if i < d.len() - 1 {
                    assert(d.drop_last()[i] == d[i]);
                }
            }
        }
        if forall|i: int| 0 <= i < d.len() ==> (#[trigger] d[i]).1 != DnsClass::UnknownPublic {
            assert(d[d.len() - 1].1 != DnsClass::UnknownPublic);
            assert forall|i: int| 0 <= i < d.drop_last().len() implies (#[trigger] d.drop_last()[i]).1
                != DnsClass::UnknownPublic by {
                assert(d.drop_last()[i] == d[i]);
            }
        }
    }
}

/// A resolver on this machine or on the local network (any IPv4 address of
/// `127.0.0.0/8`, `10/8`, `192.168/16`, `172.16/12`, `100.64/10`) is never
/// taken for an unrecognized public one.
pub proof fn law_local_resolvers_trusted(a: u8, b: u8, c: u8, d: u8)
    requires
        a == 127 || a == 10 || (a == 192 && b == 168) || (a == 172 && 16 <= b <= 31) || (a == 100 && 64 <= b <= 127),
    ensures
        dns_class(crate::analysis::dotted(a, b, c, d)) != DnsClass::UnknownPublic,
{
    crate::analysis::law_ipv4_zones(a, b, c, d);
}

/// The firewalld targets that refuse unsolicited incoming traffic (in any
/// case): DROP, REJECT, %%REJECT%% and default; ACCEPT does not.
pub proof fn law_denying_targets()
    ensures
        denies("DROP"@),
        denies("drop"@),
        denies("REJECT"@),
        denies("reject"@),
        denies("%%REJECT%%"@),
        denies("default"@),
        denies("DEFAULT"@),
        !denies("ACCEPT"@),
        !denies("accept"@),
{
    reveal_strlit("DROP");
    reveal_strlit("drop");
    reveal_strlit("REJECT");
    reveal_strlit("reject");
    reveal_strlit("%%REJECT%%");
    reveal_strlit("default");
    reveal_strlit("DEFAULT");
    reveal_strlit("ACCEPT");
    reveal_strlit("accept");
    assert(upper_seq("DROP"@) =~= "DROP"@);
    assert(upper_seq("drop"@) =~= "DROP"@);
    assert(upper_seq("REJECT"@) =~= "REJECT"@);
    assert(upper_seq("reject"@) =~= "REJECT"@);
    assert(upper_seq("%%REJECT%%"@) =~= "%%REJECT%%"@);
    assert(upper_seq("default"@) =~= "DEFAULT"@);
    assert(upper_seq("DEFAULT"@) =~= "DEFAULT"@);
    assert(upper_seq("ACCEPT"@) =~= "ACCEPT"@);
    assert(upper_seq("accept"@) =~= "ACCEPT"@);
    assert("ACCEPT"@.len() != "DROP"@.len());
    assert("ACCEPT"@[0] != "REJECT"@[0]);
    assert("ACCEPT"@.len() != "%%REJECT%%"@.len());
    assert("ACCEPT"@[0] != "DEFAULT"@[0]);
}

impl Firewall {
    /// A firewall warns when it is off, or when its incoming target lets
    /// unsolicited traffic in; one warning then, none otherwise.
    pub proof fn law_firewall_warnings(self)
        ensures
            self.warnings_spec().len() == (if !self.active || (self.incoming matches Some(t) && !denies(t@)) {
                1int
            } else {
                0int
            }),
    {
    }
}

} // verus!
