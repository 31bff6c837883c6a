//! Defensive analysis: trust zones of addresses and process lineage.
use crate::text::{
    chars_of, find_char, find_char_in, is_lit, lower_all, lower_seq, parse_u8, parse_u8_of, piece_len,
    scan_to_char, slice_of, split, split_on, starts_with, starts_with_lit, views, parse_u32, dec,
};
use vstd::prelude::*;

verus! {

/// Zone of trust of an IP address.
#[derive(Debug, Clone, Copy, PartialEq, Eq, Structural)]
pub enum Zone {
    /// `*`, `0.0.0.0` or `::`: wildcard (listens on every interface).
    Any,
    /// `127.0.0.0/8`, `::1`: this machine only.
    Loopback,
    /// `169.254/16`, `fe80::/10`: link-local.
    LinkLocal,
    /// Private networks: `10/8`, `172.16/12`, `192.168/16`, `100.64/10`
    /// (CGNAT/Tailscale), `fc00::/7` (ULA).
    Lan,
    /// Anything else: the public internet.
    Public,
}

pub open spec fn zone_label(z: Zone) -> Seq<char> {
    match z {
        Zone::Any => "todas"@,
        Zone::Loopback => "local"@,
        Zone::LinkLocal => "link-local"@,
        Zone::Lan => "rede local"@,
        Zone::Public => "internet"@,
    }
}

impl Zone {
    pub fn label(self) -> (r: &'static str)
        ensures
            r@ == zone_label(self),
    {
        match self {
            Zone::Any => "todas",
            Zone::Loopback => "local",
            Zone::LinkLocal => "link-local",
            Zone::Lan => "rede local",
            Zone::Public => "internet",
        }
    }
}

/// Reachable from other machines: any address but the loopback.
pub open spec fn is_exposed_zone(z: Zone) -> bool {
    z != Zone::Loopback
}

/// The first group of an IPv6 address (before the first `:`).
pub open spec fn first_group(ip: Seq<char>) -> Seq<char> {
    ip.take(piece_len(ip, ':') as int)
}

/// A first group (in lower case) inside `fe80::/10`: `fe80` to `febf`.
pub open spec fn link_local_group(g: Seq<char>) -> bool {
    g.len() == 4 && g[0] == 'f' && g[1] == 'e' && (g[2] == '8' || g[2] == '9' || g[2] == 'a' || g[2] == 'b')
}

/// A first group (in lower case) inside `fc00::/7`: `fc00` to `fdff`.
pub open spec fn ula_group(g: Seq<char>) -> bool {
    g.len() == 4 && g[0] == 'f' && (g[1] == 'c' || g[1] == 'd')
}

/// The numbers among the dot-separated pieces, in order (the pieces that do
/// not read as a `u8` are skipped).
pub open spec fn octets(pieces: Seq<Seq<char>>) -> Seq<u8>
    decreases pieces.len(),
{
    if pieces.len() == 0 {
        seq![]
    } else {
        match parse_u8(pieces[0]) {
            Some(v) => seq![v] + octets(pieces.drop_first()),
            None => octets(pieces.drop_first()),
        }
    }
}

/// Private IPv4 ranges, by the first two octets.
pub open spec fn private_v4(a: u8, b: u8) -> bool {
    ||| a == 10
    ||| (a == 192 && b == 168)
    ||| (a == 172 && 16 <= b <= 31)
    ||| (a == 100 && 64 <= b <= 127)
}

/// The address without its interface suffix (`192.168.0.1%enp2s0`).
pub open spec fn strip_iface(addr: Seq<char>) -> Seq<char> {
    addr.take(piece_len(addr, '%') as int)
}

/// Zone of an address (without port).
pub open spec fn zone_of(addr: Seq<char>) -> Zone {
    let ip = strip_iface(addr);
    let low = lower_seq(ip);
    if ip.len() == 0 || ip == "*"@ || ip == "0.0.0.0"@ || ip == "::"@ {
        Zone::Any
    } else if ip == "::1"@ || starts_with(ip, "127."@) {
        Zone::Loopback
    } else if starts_with(ip, "169.254."@) {
        Zone::LinkLocal
    } else if find_char(ip, ':') is Some {
        if link_local_group(first_group(low)) {
            Zone::LinkLocal
        } else if ula_group(first_group(low)) {
            Zone::Lan
        } else {
            Zone::Public
        }
    } else {
        let o = octets(split(ip, '.'));
        if o.len() == 4 && private_v4(o[0], o[1]) {
            Zone::Lan
        } else {
            Zone::Public
        }
    }
}

/// The interface suffix of an address (`192.168.0.1%enp2s0`) does not change
/// its zone.
pub proof fn law_zone_ignores_interface(addr: Seq<char>, iface: Seq<char>)
    requires
        !addr.contains('%'),
    ensures
        zone_of(addr + seq!['%'] + iface) == zone_of(addr),
{
    let rest = seq!['%'] + iface;
    assert(addr + seq!['%'] + iface =~= addr + rest);
    assert(rest[0] == '%');
    crate::text::lemma_piece_len_concat(addr, rest, '%');
    crate::text::lemma_piece_len_concat(addr, Seq::empty(), '%');
    assert(addr + Seq::<char>::empty() =~= addr);
    assert((addr + rest).take(addr.len() as int) =~= addr);
    assert(addr.take(addr.len() as int) =~= addr);
}

/// All of `127.0.0.0/8` is this machine: an address written `127.` followed
/// by anything (with or without an interface suffix) is loopback.
pub proof fn law_loopback_v4(rest: Seq<char>, iface: Seq<char>)
    requires
        !rest.contains('%'),
    ensures
        zone_of(seq!['1', '2', '7', '.'] + rest) == Zone::Loopback,
        zone_of(seq!['1', '2', '7', '.'] + rest + seq!['%'] + iface) == Zone::Loopback,
{
    let p = seq!['1', '2', '7', '.'];
    let ip = p + rest;
    assert(!ip.contains('%')) by {
        if ip.contains('%') {
            let k = choose|k: int| 0 <= k < ip.len() && ip[k] == '%';
            if k >= 4 {
                assert(rest[k - 4] == '%');
            }
        }
    }
    law_zone_ignores_interface(ip, iface);
    crate::text::lemma_piece_len_concat(ip, Seq::empty(), '%');
    assert(ip + Seq::<char>::empty() =~= ip);
    assert(strip_iface(ip) =~= ip);
    reveal_strlit("*");
    reveal_strlit("0.0.0.0");
    reveal_strlit("::");
    reveal_strlit("127.");
    assert(ip[0] == '1');
    assert(ip != "*"@ && ip != "0.0.0.0"@ && ip != "::"@);
    assert(ip.take(4) =~= "127."@);
    assert(starts_with(ip, "127."@));
}

/// The dotted decimal form `a.b.c.d` of an IPv4 address.
pub open spec fn dotted(a: u8, b: u8, c: u8, d: u8) -> Seq<char> {
    dec(a as nat) + seq!['.'] + dec(b as nat) + seq!['.'] + dec(c as nat) + seq!['.'] + dec(d as nat)
}

proof fn lemma_dec_u8(x: u8)
    ensures
        dec(x as nat).len() > 0,
        forall|i: int| 0 <= i < dec(x as nat).len() ==> crate::text::is_digit(#[trigger] dec(x as nat)[i]),
        !dec(x as nat).contains('.'),
        parse_u8(dec(x as nat)) == Some(x),
{
    let e = dec(x as nat);
    crate::text::lemma_dec_digits(x as nat);
    assert(!e.contains('.')) by {
        if e.contains('.') {
            let k = choose|k: int| 0 <= k < e.len() && e[k] == '.';
            assert(crate::text::is_digit(e[k]));
        }
    }
    assert(crate::text::is_digit(e[0]));
}

proof fn lemma_dotted(a: u8, b: u8, c: u8, d: u8)
    ensures
        split(dotted(a, b, c, d), '.') == seq![dec(a as nat), dec(b as nat), dec(c as nat), dec(d as nat)],
        octets(split(dotted(a, b, c, d), '.')) == seq![a, b, c, d],
        forall|i: int| 0 <= i < dotted(a, b, c, d).len() ==> {
            let ch = #[trigger] dotted(a, b, c, d)[i];
            crate::text::is_digit(ch) || ch == '.'
        },
        crate::text::is_digit(dotted(a, b, c, d)[0]),
{
    let (da, db, dc, dd) = (dec(a as nat), dec(b as nat), dec(c as nat), dec(d as nat));
    lemma_dec_u8(a);
    lemma_dec_u8(b);
    lemma_dec_u8(c);
    lemma_dec_u8(d);
    let s = dotted(a, b, c, d);
    assert(s =~= da + seq!['.'] + (db + seq!['.'] + (dc + seq!['.'] + dd)));
    crate::text::lemma_split_field(da, db + seq!['.'] + (dc + seq!['.'] + dd), '.');
    crate::text::lemma_split_field(db, dc + seq!['.'] + dd, '.');
    crate::text::lemma_split_field(dc, dd, '.');
    crate::text::lemma_split_last_field(dd, '.');
    let p = seq![da, db, dc, dd];
    assert(split(s, '.') =~= p);
    assert(p.drop_first() =~= seq![db, dc, dd]);
    assert(p.drop_first().drop_first() =~= seq![dc, dd]);
    assert(p.drop_first().drop_first().drop_first() =~= seq![dd]);
    assert(p.drop_first().drop_first().drop_first().drop_first() =~= Seq::<Seq<char>>::empty());
    let e: Seq<Seq<char>> = Seq::empty();
    assert(octets(e) == Seq::<u8>::empty());
    let q1 = seq![dd];
    assert(q1[0] == dd && q1.drop_first() =~= e);
    assert(octets(q1) =~= seq![d]);
    let q2 = seq![dc, dd];
    assert(q2[0] == dc && q2.drop_first() =~= q1);
    assert(octets(q2) =~= seq![c, d]);
    let q3 = seq![db, dc, dd];
    assert(q3[0] == db && q3.drop_first() =~= q2);
    assert(octets(q3) =~= seq![b, c, d]);
    assert(p[0] == da && p.drop_first() =~= q3);
    assert(octets(p) =~= seq![a, b, c, d]);
    assert forall|i: int| 0 <= i < s.len() implies {
        let ch = #[trigger] s[i];
        crate::text::is_digit(ch) || ch == '.'
    } by {
        let l1 = da.len() as int;
        let l2 = l1 + 1 + db.len();
        let l3 = l2 + 1 + dc.len();
        if i < l1 {
            assert(s[i] == da[i]);
        } else if i == l1 {
        } else if i < l2 {
            assert(s[i] == db[i - l1 - 1]);
        } else if i == l2 {
        } else if i < l3 {
            assert(s[i] == dc[i - l2 - 1]);
        } else if i == l3 {
        } else {
            assert(s[i] == dd[i - l3 - 1]);
        }
    }
    assert(s[0] == da[0]);
}

#[verifier::spinoff_prover]
proof fn lemma_dotted_127(a: u8, b: u8, c: u8, d: u8)
    ensures
        starts_with(dotted(a, b, c, d), "127."@) <==> a == 127,
{
    let ip = dotted(a, b, c, d);
    lemma_dotted(a, b, c, d);
    reveal_strlit("127.");
    lemma_dotted(127, 0, 0, 0);
    assert(dec(127) == seq!['1', '2', '7']) by {
        reveal_with_fuel(dec, 3);
    }
    if starts_with(ip, "127."@) {
        let rest = ip.skip(4);
        assert("127."@ =~= seq!['1', '2', '7', '.']);
        assert(ip.take(4) =~= seq!['1', '2', '7', '.']);
        assert(ip[0] == '1' && ip[1] == '2' && ip[2] == '7' && ip[3] == '.');
        assert(ip =~= seq!['1', '2', '7'] + seq!['.'] + rest);
        crate::text::lemma_split_field(seq!['1', '2', '7'], rest, '.');
        assert(split(ip, '.')[0] == seq!['1', '2', '7']);
        assert(dec(a as nat) == dec(127));
        crate::text::lemma_dec_digits(a as nat);
        crate::text::lemma_dec_digits(127);
    }
    if a == 127 {
        assert(ip.take(4) =~= "127."@);
    }
}

#[verifier::spinoff_prover]
proof fn lemma_dotted_169_254(a: u8, b: u8, c: u8, d: u8)
    ensures
        starts_with(dotted(a, b, c, d), "169.254."@) <==> (a == 169 && b == 254),
{
    let ip = dotted(a, b, c, d);
    lemma_dotted(a, b, c, d);
    reveal_strlit("169.254.");
    assert(dec(169) == seq!['1', '6', '9']) by {
        reveal_with_fuel(dec, 3);
    }
    assert(dec(254) == seq!['2', '5', '4']) by {
        reveal_with_fuel(dec, 3);
    }
    if starts_with(ip, "169.254."@) {
        let rest = ip.skip(8);
        assert("169.254."@ =~= seq!['1', '6', '9', '.', '2', '5', '4', '.']);
        assert(ip.take(8) =~= seq!['1', '6', '9', '.', '2', '5', '4', '.']);
        assert(ip[0] == '1' && ip[1] == '6' && ip[2] == '9' && ip[3] == '.');
        assert(ip[4] == '2' && ip[5] == '5' && ip[6] == '4' && ip[7] == '.');
        assert(ip =~= seq!['1', '6', '9'] + seq!['.'] + (seq!['2', '5', '4'] + seq!['.'] + rest));
        crate::text::lemma_split_field(seq!['1', '6', '9'], seq!['2', '5', '4'] + seq!['.'] + rest, '.');
        crate::text::lemma_split_field(seq!['2', '5', '4'], rest, '.');
        assert(split(ip, '.')[0] == seq!['1', '6', '9']);
        assert(split(ip, '.')[1] == seq!['2', '5', '4']);
        crate::text::lemma_dec_digits(a as nat);
        crate::text::lemma_dec_digits(b as nat);
        crate::text::lemma_dec_digits(169);
        crate::text::lemma_dec_digits(254);
    }
    if a == 169 && b == 254 {
        assert(ip.take(8) =~= "169.254."@);
    }
}

/// Every IPv4 address in dotted decimal form gets the zone of its range:
/// `0.0.0.0` is the wildcard, `127.0.0.0/8` loopback, `169.254.0.0/16`
/// link-local, `10/8`, `192.168/16`, `172.16/12` and `100.64/10` the local
/// network, and every other address the internet.
#[verifier::spinoff_prover]
#[verifier::rlimit(50)]
pub proof fn law_ipv4_zones(a: u8, b: u8, c: u8, d: u8)
    ensures
        zone_of(dotted(a, b, c, d)) == (if a == 0 && b == 0 && c == 0 && d == 0 {
            Zone::Any
        } else if a == 127 {
            Zone::Loopback
        } else if a == 169 && b == 254 {
            Zone::LinkLocal
        } else if a == 10 || (a == 192 && b == 168) || (a == 172 && 16 <= b <= 31) || (a == 100 && 64 <= b
            <= 127) {
            Zone::Lan
        } else {
            Zone::Public
        }),
{
    let ip = dotted(a, b, c, d);
    lemma_dotted(a, b, c, d);
    // No interface suffix and no `:`.
    assert(!ip.contains('%')) by {
        if ip.contains('%') {
            let k = choose|k: int| 0 <= k < ip.len() && ip[k] == '%';
            assert(crate::text::is_digit(ip[k]) || ip[k] == '.');
        }
    }
    crate::text::lemma_piece_len_concat(ip, Seq::empty(), '%');
    assert(ip + Seq::<char>::empty() =~= ip);
    assert(strip_iface(ip) =~= ip);
    crate::text::lemma_piece_len(ip, ':');
    assert(find_char(ip, ':') is None) by {
        if find_char(ip, ':') is Some {
            let k = find_char(ip, ':').unwrap();
            assert(crate::text::is_digit(ip[k]) || ip[k] == '.');
        }
    }
    reveal_strlit("*");
    reveal_strlit("0.0.0.0");
    reveal_strlit("::");
    reveal_strlit("::1");
    reveal_strlit("127.");
    reveal_strlit("169.254.");
    assert(ip != "*"@ && ip != "::"@ && ip != "::1"@);
    // The wildcard: the same text has the same numbers.
    lemma_dotted(0, 0, 0, 0);
    assert(dec(0) =~= seq!['0']);
    assert(dotted(0, 0, 0, 0) =~= "0.0.0.0"@);
    assert(ip == "0.0.0.0"@ <==> (a == 0 && b == 0 && c == 0 && d == 0));
    lemma_dotted_127(a, b, c, d);
    lemma_dotted_169_254(a, b, c, d);
}

proof fn lemma_v6_group(g: Seq<char>, rest: Seq<char>)
    requires
        g.len() == 4,
        g[0] == 'f' || g[0] == 'F',
        !g.contains(':'),
        !g.contains('%'),
        !rest.contains('%'),
    ensures
        zone_of(g + seq![':'] + rest) == (if link_local_group(lower_seq(g)) {
            Zone::LinkLocal
        } else if ula_group(lower_seq(g)) {
            Zone::Lan
        } else {
            Zone::Public
        }),
{
    let ip = g + seq![':'] + rest;
    assert(!ip.contains('%')) by {
        if ip.contains('%') {
            let k = choose|k: int| 0 <= k < ip.len() && ip[k] == '%';
            if k < 4 {
                assert(g[k] == '%');
            } else if k > 4 {
                assert(rest[k - 5] == '%');
            }
        }
    }
    crate::text::lemma_piece_len_concat(ip, Seq::empty(), '%');
    assert(ip + Seq::<char>::empty() =~= ip);
    assert(strip_iface(ip) =~= ip);
    reveal_strlit("*");
    reveal_strlit("0.0.0.0");
    reveal_strlit("::");
    reveal_strlit("::1");
    reveal_strlit("127.");
    reveal_strlit("169.254.");
    assert(ip[0] == g[0]);
    assert(ip != "*"@ && ip != "0.0.0.0"@ && ip != "::"@ && ip != "::1"@);
    assert(!starts_with(ip, "127."@)) by {
        if starts_with(ip, "127."@) {
            assert(ip.take(4)[0] == ip[0]);
        }
    }
    assert(!starts_with(ip, "169.254."@)) by {
        if starts_with(ip, "169.254."@) {
            assert(ip.take(8)[0] == ip[0]);
        }
    }
    crate::text::lemma_piece_len_concat(g, seq![':'] + rest, ':');
    assert(ip =~= g + (seq![':'] + rest));
    assert((seq![':'] + rest)[0] == ':');
    assert(find_char(ip, ':') is Some);
    let low = lower_seq(ip);
    let lg = lower_seq(g);
    assert(low =~= lg + (seq![':'] + lower_seq(rest)));
    assert(!lg.contains(':')) by {
        if lg.contains(':') {
            let k = choose|k: int| 0 <= k < lg.len() && lg[k] == ':';
            assert(lg[k] == crate::text::lower(g[k]));
            assert(g[k] != ':');
        }
    }
    crate::text::lemma_piece_len_concat(lg, seq![':'] + lower_seq(rest), ':');
    assert((seq![':'] + lower_seq(rest))[0] == ':');
    assert(first_group(low) =~= lg);
}

/// IPv6 addresses by their first group: `fe80` to `febf` (`fe80::/10`) are
/// link-local, `fc00` to `fdff` (`fc00::/7`) are the local network, in
/// either case.
pub proof fn law_ipv6_zones(x: char, y: char, z: char, rest: Seq<char>)
    requires
        y != ':' && y != '%',
        z != ':' && z != '%',
        !rest.contains('%'),
    ensures
        (x == '8' || x == '9' || x == 'a' || x == 'b' || x == 'A' || x == 'B') ==> zone_of(
            seq!['f', 'e', x, z] + seq![':'] + rest,
        ) == Zone::LinkLocal,
        (x == '8' || x == '9' || x == 'a' || x == 'b' || x == 'A' || x == 'B') ==> zone_of(
            seq!['F', 'E', x, z] + seq![':'] + rest,
        ) == Zone::LinkLocal,
        (x == 'c' || x == 'd' || x == 'C' || x == 'D') ==> zone_of(seq!['f', x, y, z] + seq![':'] + rest)
            == Zone::Lan,
{
    if x == '8' || x == '9' || x == 'a' || x == 'b' || x == 'A' || x == 'B' {
        let g = seq!['f', 'e', x, z];
        assert(!g.contains(':') && !g.contains('%')) by {
            if g.contains(':') || g.contains('%') {
                let k = choose|k: int| 0 <= k < g.len() && (g[k] == ':' || g[k] == '%');
                assert(k == 0 || k == 1 || k == 2 || k == 3);
            }
        }
        lemma_v6_group(g, rest);
        assert(lower_seq(g)[2] == crate::text::lower(x));
        let h = seq!['F', 'E', x, z];
        assert(!h.contains(':') && !h.contains('%')) by {
            if h.contains(':') || h.contains('%') {
                let k = choose|k: int| 0 <= k < h.len() && (h[k] == ':' || h[k] == '%');
                assert(k == 0 || k == 1 || k == 2 || k == 3);
            }
        }
        assert(h[0] == 'F');
        lemma_v6_group(h, rest);
        assert(lower_seq(h)[0] == crate::text::lower('F'));
        assert(lower_seq(h)[1] == crate::text::lower('E'));
        assert(lower_seq(h)[2] == crate::text::lower(x));
    }
    if x == 'c' || x == 'd' || x == 'C' || x == 'D' {
        let g = seq!['f', x, y, z];
        assert(!g.contains(':') && !g.contains('%')) by {
            if g.contains(':') || g.contains('%') {
                let k = choose|k: int| 0 <= k < g.len() && (g[k] == ':' || g[k] == '%');
                assert(k == 0 || k == 1 || k == 2 || k == 3);
            }
        }
        lemma_v6_group(g, rest);
        assert(lower_seq(g)[1] == crate::text::lower(x));
        assert(lower_seq(g)[2] == crate::text::lower(y));
    }
}

/// The wildcard (`*`, `::`, or nothing) listens on every interface, and
/// `::1` is this machine.
pub proof fn law_special_addresses()
    ensures
        zone_of(Seq::empty()) == Zone::Any,
        zone_of(seq!['*']) == Zone::Any,
        zone_of(seq![':', ':']) == Zone::Any,
        zone_of(seq![':', ':', '1']) == Zone::Loopback,
{
    reveal_strlit("*");
    reveal_strlit("::");
    reveal_strlit("::1");
    let e: Seq<char> = Seq::empty();
    assert(strip_iface(e) =~= e);
    assert(!seq!['*'].contains('%')) by {
        if seq!['*'].contains('%') {
            let k = choose|k: int| 0 <= k < 1 && seq!['*'][k] == '%';
        }
    }
    assert(!seq![':', ':'].contains('%')) by {
        if seq![':', ':'].contains('%') {
            let k = choose|k: int| 0 <= k < 2 && seq![':', ':'][k] == '%';
            assert(k == 0 || k == 1);
        }
    }
    assert(!seq![':', ':', '1'].contains('%')) by {
        if seq![':', ':', '1'].contains('%') {
            let k = choose|k: int| 0 <= k < 3 && seq![':', ':', '1'][k] == '%';
            assert(k == 0 || k == 1 || k == 2);
        }
    }
    crate::text::lemma_piece_len_concat(seq!['*'], e, '%');
    crate::text::lemma_piece_len_concat(seq![':', ':'], e, '%');
    crate::text::lemma_piece_len_concat(seq![':', ':', '1'], e, '%');
    assert(seq!['*'] + e =~= seq!['*']);
    assert(seq![':', ':'] + e =~= seq![':', ':']);
    assert(seq![':', ':', '1'] + e =~= seq![':', ':', '1']);
    assert(strip_iface(seq!['*']) =~= seq!['*']);
    assert(strip_iface(seq![':', ':']) =~= seq![':', ':']);
    assert(strip_iface(seq![':', ':', '1']) =~= seq![':', ':', '1']);
    reveal_strlit("0.0.0.0");
    assert(seq![':', ':', '1'] =~= "::1"@);
    assert(seq!['*'] =~= "*"@);
    assert(seq![':', ':'] =~= "::"@);
    assert(seq![':', ':', '1'] != "::"@);
    assert(seq![':', ':', '1'] != "*"@);
    assert(seq![':', ':', '1'] != "0.0.0.0"@);
}

/// The names of the zones in the reports.
pub proof fn law_zone_labels()
    ensures
        zone_label(Zone::Any) == "todas"@,
        zone_label(Zone::Loopback) == "local"@,
        zone_label(Zone::LinkLocal) == "link-local"@,
        zone_label(Zone::Lan) == "rede local"@,
        zone_label(Zone::Public) == "internet"@,
{
}

fn octets_of(pieces: &Vec<Vec<char>>) -> (r: Vec<u8>)
    ensures
        r@ == octets(views(pieces@)),
{
    let ghost p = views(pieces@);
    let mut i: usize = pieces.len();
    let mut acc: Vec<u8> = Vec::new();
    assert(p.skip(pieces.len() as int) =~= Seq::<Seq<char>>::empty());
    // Built from the back so that each step prepends.
    while i > 0
        invariant
            i <= pieces.len(),
            p == views(pieces@),
            acc@ == octets(p.skip(i as int)),
        decreases i,
    {
        i = i - 1;
        assert(p.skip(i as int).drop_first() =~= p.skip(i + 1));
        assert(p.skip(i as int)[0] == pieces@[i as int]@);
        match parse_u8_of(&pieces[i]) {
            Some(v) => {
                let ghost before = acc@;
                acc.insert(0, v);
                assert(acc@ =~= seq![v] + before);
            },
            None => {},
        }
    }
    assert(p.skip(0) =~= p);
    acc
}

/// Classifies an address (without port) into a zone of trust.
pub fn zone(addr: &str) -> (z: Zone)
    ensures
        z == zone_of(addr@),
{
    let a = chars_of(addr);
    zone_chars(&a)
}

pub fn zone_chars(a: &Vec<char>) -> (z: Zone)
    ensures
        z == zone_of(a@),
{
    let n = scan_to_char(a, 0, '%');
    assert(a@.skip(0) =~= a@);
    let ip = slice_of(a, 0, n);
    assert(ip@ =~= strip_iface(a@));
    if ip.len() == 0 || is_lit(&ip, "*") || is_lit(&ip, "0.0.0.0") || is_lit(&ip, "::") {
        return Zone::Any;
    }
    if is_lit(&ip, "::1") || starts_with_lit(&ip, "127.") {
        return Zone::Loopback;
    }
    if starts_with_lit(&ip, "169.254.") {
        return Zone::LinkLocal;
    }
    let low = lower_all(&ip);
    if find_char_in(&ip, ':').is_some() {
        let gl = scan_to_char(&low, 0, ':');
        assert(low@.skip(0) =~= low@);
        let g = slice_of(&low, 0, gl);
        assert(g@ =~= first_group(low@));
        if g.len() == 4 && g[0] == 'f' && g[1] == 'e' && (g[2] == '8' || g[2] == '9' || g[2] == 'a'
            || g[2] == 'b') {
            return Zone::LinkLocal;
        }
        if g.len() == 4 && g[0] == 'f' && (g[1] == 'c' || g[1] == 'd') {
            return Zone::Lan;
        }
        return Zone::Public;
    }
    let pieces = split_on(&ip, '.');
    let o = octets_of(&pieces);
    if o.len() == 4 {
        let a0 = o[0];
        let b0 = o[1];
        if a0 == 10 || (a0 == 192 && b0 == 168) || (a0 == 172 && 16 <= b0 && b0 <= 31) || (a0
            == 100 && 64 <= b0 && b0 <= 127) {
            return Zone::Lan;
        }
        return Zone::Public;
    }
    Zone::Public
}

} // verus!

verus! {

// ---------------------------------------------------------------------------
// Process lineage
// ---------------------------------------------------------------------------

/// `(comm, ppid)` of the content of `/proc/<pid>/stat`: `comm` is between
/// the first `(` and the last `)` (it may hold spaces and parentheses), and
/// `ppid` is the second field after that `)`.
pub open spec fn proc_stat_spec(data: Seq<char>) -> Option<(Seq<char>, u32)> {
    match (crate::text::rfind_char(data, ')'), find_char(data, '(')) {
        (Some(rp), Some(lp)) => if lp + 1 > rp {
            None
        } else {
            let after = crate::text::tokens(data.skip(rp + 1));
            if after.len() < 2 {
                None
            } else {
                match parse_u32(after[1]) {
                    Some(ppid) => Some((data.subrange(lp + 1, rp), ppid)),
                    None => None,
                }
            }
        },
        _ => None,
    }
}

proof fn lemma_stat_tail(state: Seq<char>, ppid: u32, tail: Seq<char>)
    requires
        state.len() > 0,
        forall|i: int| 0 <= i < state.len() ==> !crate::text::is_ws(#[trigger] state[i]) && state[i] != ')',
        tail.len() == 0 || tail[0] == ' ',
    ensures
        crate::text::tokens(seq![' '] + state + seq![' '] + dec(ppid as nat) + tail).len() >= 2,
        crate::text::tokens(seq![' '] + state + seq![' '] + dec(ppid as nat) + tail)[1] == dec(ppid as nat),
{
    let d = dec(ppid as nat);
    crate::text::lemma_dec_digits(ppid as nat);
    let t = seq![' '] + state + seq![' '] + d + tail;
    assert forall|i: int| 0 <= i < d.len() implies !crate::text::is_ws(#[trigger] d[i]) by {
        assert(crate::text::is_digit(d[i]));
    }
    assert forall|i: int| 0 <= i < state.len() implies !crate::text::is_ws(#[trigger] state[i]) by {}
    assert(crate::text::is_ws(' '));
    assert(t.drop_first() =~= state + seq![' '] + (d + tail));
    assert(t[0] == ' ');
    assert(crate::text::tokens(t) == crate::text::tokens(t.drop_first()));
    crate::text::lemma_tokens_word(state, d + tail);
    if tail.len() == 0 {
        assert(d + tail =~= d);
        crate::text::lemma_tokens_word(d, Seq::empty());
    } else {
        let t2 = tail.drop_first();
        assert(d + tail =~= d + seq![' '] + t2);
        crate::text::lemma_tokens_word(d, t2);
    }
}

/// A `/proc/<pid>/stat` line reads as its `comm` (whatever it holds:
/// spaces, parentheses) and the parent PID: `pid (comm) state ppid ...`.
#[verifier::spinoff_prover]
pub proof fn law_proc_stat_fields(pid: Seq<char>, comm: Seq<char>, state: Seq<char>, ppid: u32, tail: Seq<char>)
    requires
        !pid.contains('('),
        state.len() > 0,
        forall|i: int| 0 <= i < state.len() ==> !crate::text::is_ws(#[trigger] state[i]) && state[i] != ')',
        !tail.contains(')'),
        tail.len() == 0 || tail[0] == ' ',
    ensures
        proc_stat_spec(
            pid + seq![' ', '('] + comm + seq![')', ' '] + state + seq![' '] + dec(ppid as nat) + tail,
        ) == Some((comm, ppid)),
{
    let d = dec(ppid as nat);
    crate::text::lemma_dec_digits(ppid as nat);
    let a = pid + seq![' ', '('] + comm + seq![')'];
    let t = seq![' '] + state + seq![' '] + d + tail;
    let data = pid + seq![' ', '('] + comm + seq![')', ' '] + state + seq![' '] + d + tail;
    assert(data =~= a + t);
    assert(!t.contains(')')) by {
        if t.contains(')') {
            let k = choose|k: int| 0 <= k < t.len() && t[k] == ')';
            let sl = state.len() as int;
            if k == 0 || k == sl + 1 {
            } else if k <= sl {
                assert(t[k] == state[k - 1]);
            } else if k < sl + 2 + d.len() {
                assert(t[k] == d[k - sl - 2]);
                assert(crate::text::is_digit(d[k - sl - 2]));
            } else {
                assert(t[k] == tail[k - sl - 2 - d.len()]);
            }
        }
    }
    crate::text::lemma_rfind_char_concat(a, t, ')');
    assert(a.last() == ')');
    let rp = a.len() - 1;
    assert(crate::text::rfind_char(data, ')') == Some(rp));
    let r = seq![' ', '('] + comm + seq![')'] + t;
    assert(data =~= pid + r);
    crate::text::lemma_piece_len_concat(pid, r, '(');
    assert(r[0] == ' ' && r[1] == '(');
    assert(r.drop_first()[0] == '(');
    assert(piece_len(r.drop_first(), '(') == 0);
    assert(piece_len(r, '(') == 1);
    let lp = pid.len() as int + 1;
    assert(find_char(data, '(') == Some(lp));
    assert(data.subrange(lp + 1, rp) =~= comm);
    assert(data.skip(rp + 1) =~= t);
    lemma_stat_tail(state, ppid, tail);
    let after = crate::text::tokens(t);
    assert(after[1] == d);
    assert(d[0] != '+') by {
        assert(crate::text::is_digit(d[0]));
    }
    assert(parse_u32(d) == Some(ppid));
}

pub open spec fn stat_view(o: Option<(String, u32)>) -> Option<(Seq<char>, u32)> {
    match o {
        Some(p) => Some((p.0@, p.1)),
        None => None,
    }
}

/// Reads `comm` and `ppid` from the content of `/proc/<pid>/stat`.
pub fn parse_proc_stat(data: &str) -> (r: Option<(String, u32)>)
    ensures
        stat_view(r) == proc_stat_spec(data@),
{
    let d = chars_of(data);
    let rp = match crate::text::rfind_char_in(&d, ')') {
        Some(i) => i,
        None => return None,
    };
    let lp = match find_char_in(&d, '(') {
        Some(i) => i,
        None => return None,
    };
    proof {
        crate::text::lemma_rfind_char(d@, ')');
        crate::text::lemma_piece_len(d@, '(');
    }
    assert(rp < d.len());
    if lp + 1 > rp {
        return None;
    }
    let rest = slice_of(&d, rp + 1, d.len());
    assert(rest@ =~= d@.skip(rp + 1));
    let after = crate::text::split_words(&rest);
    if after.len() < 2 {
        return None;
    }
    assert(views(after@)[1] == after@[1]@);
    let ppid = match crate::text::parse_u32_of(&after[1]) {
        Some(p) => p,
        None => return None,
    };
    let comm = slice_of(&d, lp + 1, rp);
    Some((crate::text::string_of(&comm), ppid))
}

/// At most this many processes are read up the tree (a guard against cycles).
pub const MAX_ANCESTRY: u32 = 64;

/// Walk from a PID up to the root (`init`), one `/proc/<pid>/stat` at a
/// time: `next_pid` says which process to read next, `feed` takes what was
/// read (`None` when it could not be read or parsed).
pub struct Ancestry {
    /// Process names from the PID upwards, the PID's own first.
    chain: Vec<String>,
    cur: u32,
    steps: u32,
    done: bool,
}

impl Ancestry {
    pub closed spec fn pending(&self) -> Option<u32> {
        if self.done || self.steps >= MAX_ANCESTRY {
            None
        } else {
            Some(self.cur)
        }
    }

    pub closed spec fn reads(&self) -> nat {
        self.steps as nat
    }

    /// Process names read so far, from the PID upwards.
    pub closed spec fn names_read(&self) -> Seq<String> {
        self.chain@
    }

    /// The chain of names read (the PID's own first).
    pub fn into_chain(self) -> (r: Vec<String>)
        ensures
            r@ == self.names_read(),
    {
        self.chain
    }

    pub fn new(pid: u32) -> (r: Ancestry)
        ensures
            r.names_read().len() == 0,
            r.pending() == Some(pid),
            r.reads() == 0,
    {
        Ancestry { chain: Vec::new(), cur: pid, steps: 0, done: false }
    }

    /// The process to read next, or `None` when the walk is over.
    pub fn next_pid(&self) -> (r: Option<u32>)
        ensures
            r == self.pending(),
    {
        if self.done || self.steps >= MAX_ANCESTRY {
            None
        } else {
            Some(self.cur)
        }
    }

    /// Takes the `(comm, ppid)` read for the pending process: its name joins
    /// the chain, and the walk goes on to the parent unless the process is
    /// `init` (PID 1), has no parent (0) or is its own parent. Nothing read
    /// ends the walk.
    pub fn feed(&mut self, stat: Option<(String, u32)>)
        requires
            old(self).pending() is Some,
        ensures
            final(self).reads() == old(self).reads() + 1,
            final(self).reads() <= MAX_ANCESTRY,
            match stat {
                None => final(self).names_read() == old(self).names_read() && final(self).pending() is None,
                Some((comm, ppid)) => {
                    let cur = old(self).pending().unwrap();
                    &&& final(self).names_read() == old(self).names_read().push(comm)
                    &&& final(self).pending() == (if cur == 1 || ppid == 0 || ppid == cur
                        || old(self).reads() + 1 >= MAX_ANCESTRY {
                        None
                    } else {
                        Some(ppid)
                    })
                },
            },
    {
        self.steps = self.steps + 1;
        match stat {
            None => {
                self.done = true;
            },
            Some((comm, ppid)) => {
                self.chain.push(comm);
                if self.cur == 1 || ppid == 0 || ppid == self.cur {
                    self.done = true;
                } else {
                    self.cur = ppid;
                }
            },
        }
    }
}

/// Hints (lower case substrings) that name a browser in the process tree;
/// Firefox's child processes descend from the main one.
pub open spec fn is_browser(comm: Seq<char>) -> bool {
    let low = lower_seq(comm);
    ||| crate::text::contains(low, "firefox"@)
    ||| crate::text::contains(low, "chrome"@)
    ||| crate::text::contains(low, "chromium"@)
    ||| crate::text::contains(low, "brave"@)
}

/// First name of the chain that is a browser's.
pub open spec fn first_browser(chain: Seq<Seq<char>>) -> Option<Seq<char>>
    decreases chain.len(),
{
    if chain.len() == 0 {
        None
    } else if is_browser(chain[0]) {
        Some(chain[0])
    } else {
        first_browser(chain.drop_first())
    }
}

/// The browser found in a chain of names is its first browser name: the
/// nearest browser among the process and its ancestors; none when no name
/// is a browser's.
pub proof fn law_first_browser(c: Seq<Seq<char>>)
    ensures
        match first_browser(c) {
            Some(n) => exists|i: int|
                0 <= i < c.len() && c[i] == n && is_browser(c[i]) && forall|j: int| 0 <= j < i ==> !is_browser(#[trigger] c[j]),
            None => forall|j: int| 0 <= j < c.len() ==> !is_browser(#[trigger] c[j]),
        },
    decreases c.len(),
{
    if c.len() > 0 && !is_browser(c[0]) {
        let d = c.drop_first();
        law_first_browser(d);
        match first_browser(d) {
            Some(n) => {
                let i = choose|i: int|
                    0 <= i < d.len() && d[i] == n && is_browser(d[i]) && forall|j: int| 0 <= j < i ==> !is_browser(#[trigger] d[j]);
                assert(c[i + 1] == d[i]);
                assert forall|j: int| 0 <= j < i + 1 implies !is_browser(#[trigger] c[j]) by {
                    if j > 0 {
                        assert(c[j] == d[j - 1]);
                    }
                }
            },
            None => {
                assert forall|j: int| 0 <= j < c.len() implies !is_browser(#[trigger] c[j]) by {
                    if j > 0 {
                        assert(c[j] == d[j - 1]);
                    }
                }
            },
        }
    }
}

/// A process whose name holds `firefox`, `chrome`, `chromium` or `brave`,
/// in any case, is a browser.
pub proof fn law_browser_names(x: Seq<char>, h: Seq<char>, y: Seq<char>)
    requires
        lower_seq(h) == "firefox"@ || lower_seq(h) == "chrome"@ || lower_seq(h) == "chromium"@ || lower_seq(h)
            == "brave"@,
    ensures
        is_browser(x + h + y),
{
    let low = lower_seq(x + h + y);
    let lh = lower_seq(h);
    assert(low =~= lower_seq(x) + lh + lower_seq(y));
    let i = x.len() as int;
    assert(low.subrange(i, i + lh.len()) =~= lh);
    assert(crate::text::matches_at(low, lh, i));
    crate::text::lemma_find_from_bounds(low, lh, 0);
    assert(crate::text::contains(low, lh));
}

pub open spec fn names(v: Seq<String>) -> Seq<Seq<char>> {
    v.map_values(|s: String| s@)
}

fn is_browser_name(comm: &String) -> (r: bool)
    ensures
        r == is_browser(comm@),
{
    let c = chars_of(comm.as_str());
    let low = lower_all(&c);
    let f = chars_of("firefox");
    let g = chars_of("chrome");
    let h = chars_of("chromium");
    let b = chars_of("brave");
    crate::text::contains_seq(&low, &f) || crate::text::contains_seq(&low, &g)
        || crate::text::contains_seq(&low, &h) || crate::text::contains_seq(&low, &b)
}

/// The browser (if any) among a process and its ancestors, given the chain
/// of names from the process upwards.
pub fn browser_ancestor(chain: &Vec<String>) -> (r: Option<String>)
    ensures
        match r {
            Some(s) => first_browser(names(chain@)) == Some(s@),
            None => first_browser(names(chain@)) is None,
        },
{
    let ghost nv = names(chain@);
    let mut i: usize = 0;
    assert(nv.skip(0) =~= nv);
    while i < chain.len()
        invariant
            i <= chain.len(),
            nv == names(chain@),
            first_browser(nv) == first_browser(nv.skip(i as int)),
        decreases chain.len() - i,
    {
        assert(nv.skip(i as int)[0] == chain@[i as int]@);
        assert(nv.skip(i as int).drop_first() =~= nv.skip(i + 1));
        if is_browser_name(&chain[i]) {
            return Some(chain[i].clone());
        }
        i = i + 1;
    }
    assert(nv.skip(i as int) =~= Seq::<Seq<char>>::empty());
    None
}

} // verus!
