//! Parsing of the `ss -tuanpH` listing and its aggregate summary.
use crate::analysis::{is_exposed_zone, zone, zone_of, Zone};
use crate::text::{
    chars_of, chars_of_string, find, find_char, find_lit, is_lit, is_digit, join, join_spaced,
    parse_u32, parse_u32_of, parse_u64, parse_u64_of, rfind_char, rfind_char_in, slice_of,
    split_words, string_is, string_of, tokens, views, lines, lines_of, dec,
};
use vstd::prelude::*;

verus! {

/// One socket, normalised from a line of `ss` output.
#[derive(Debug, Clone, PartialEq, Eq, Hash)]
pub struct Socket {
    /// tcp, udp, u_str, ...
    pub netid: String,
    /// ESTAB, LISTEN, UNCONN, TIME-WAIT, ...
    pub state: String,
    pub recv_q: u64,
    pub send_q: u64,
    pub local_addr: String,
    pub local_port: String,
    pub peer_addr: String,
    pub peer_port: String,
    /// Name of the owning process (empty when unknown or not permitted).
    pub process: String,
    pub pid: Option<u32>,
}

/// `netid|local_addr:local_port|peer_addr:peer_port`.
pub open spec fn key_of(s: Socket) -> Seq<char> {
    s.netid@ + "|"@ + s.local_addr@ + ":"@ + s.local_port@ + "|"@ + s.peer_addr@ + ":"@
        + s.peer_port@
}

pub open spec fn local_of(s: Socket) -> Seq<char> {
    s.local_addr@ + ":"@ + s.local_port@
}

pub open spec fn peer_of(s: Socket) -> Seq<char> {
    s.peer_addr@ + ":"@ + s.peer_port@
}

/// A network socket (TCP or UDP), as opposed to a UNIX domain socket.
pub open spec fn network(s: Socket) -> bool {
    s.netid@ == "tcp"@ || s.netid@ == "udp"@
}

/// Reachable from the network: a listener on a non-loopback address, or a
/// UDP socket bound to the wildcard address (UDP "listens" in `UNCONN`).
pub open spec fn exposed(s: Socket) -> bool {
    &&& network(s)
    &&& {
        ||| (s.state@ == "LISTEN"@ && is_exposed_zone(zone_of(s.local_addr@)))
        ||| (s.netid@ == "udp"@ && s.state@ == "UNCONN"@ && zone_of(s.local_addr@) == Zone::Any)
    }
}

impl Socket {
    /// Stable key used to tell new and closed connections apart between refreshes.
    pub fn key(&self) -> (r: String)
        ensures
            r@ == key_of(*self),
    {
        let mut r = self.netid.clone();
        r.append("|");
        r.append(self.local_addr.as_str());
        r.append(":");
        r.append(self.local_port.as_str());
        r.append("|");
        r.append(self.peer_addr.as_str());
        r.append(":");
        r.append(self.peer_port.as_str());
        r
    }

    pub fn local(&self) -> (r: String)
        ensures
            r@ == local_of(*self),
    {
        let mut r = self.local_addr.clone();
        r.append(":");
        r.append(self.local_port.as_str());
        r
    }

    pub fn peer(&self) -> (r: String)
        ensures
            r@ == peer_of(*self),
    {
        let mut r = self.peer_addr.clone();
        r.append(":");
        r.append(self.peer_port.as_str());
        r
    }

    pub fn is_network(&self) -> (r: bool)
        ensures
            r == network(*self),
    {
        string_is(&self.netid, "tcp") || string_is(&self.netid, "udp")
    }

    pub fn is_exposed(&self) -> (r: bool)
        ensures
            r == exposed(*self),
    {
        if !self.is_network() {
            return false;
        }
        let z = zone(self.local_addr.as_str());
        (string_is(&self.state, "LISTEN") && (z != Zone::Loopback)) || (string_is(&self.netid, "udp") && string_is(&self.state, "UNCONN")
            && z == Zone::Any)
    }
}

// ---------------------------------------------------------------------------
// Parsing
// ---------------------------------------------------------------------------

pub open spec fn is_bracket(c: char) -> bool {
    c == '[' || c == ']'
}

pub open spec fn lead_br(s: Seq<char>) -> nat
    decreases s.len(),
{
    if s.len() == 0 || !is_bracket(s[0]) {
        0
    } else {
        1 + lead_br(s.drop_first())
    }
}

pub open spec fn trail_br(s: Seq<char>) -> nat
    decreases s.len(),
{
    if s.len() == 0 || !is_bracket(s.last()) {
        0
    } else {
        1 + trail_br(s.drop_last())
    }
}

/// `str::trim_matches(['[', ']'])`.
pub open spec fn trim_brackets(s: Seq<char>) -> Seq<char> {
    let t = s.skip(lead_br(s) as int);
    t.take(t.len() - trail_br(t))
}

/// Address and port of `addr:port`, split at the last `:`; the address loses
/// the brackets of the IPv6 form `[::1]:80`.
pub open spec fn split_addr_port_spec(s: Seq<char>) -> (Seq<char>, Seq<char>) {
    match rfind_char(s, ':') {
        Some(i) => (trim_brackets(s.take(i)), s.skip(i + 1)),
        None => (s, seq![]),
    }
}

/// Splitting `addr:port` gives back the address and the port, when the port
/// holds no `:` and the address neither starts nor ends with a bracket.
pub proof fn law_split_addr_port_round_trip(addr: Seq<char>, port: Seq<char>)
    requires
        !port.contains(':'),
        addr.len() > 0 ==> !is_bracket(addr[0]) && !is_bracket(addr.last()),
    ensures
        split_addr_port_spec(addr + seq![':'] + port) == (addr, port),
{
    let x = addr.push(':');
    assert(addr + seq![':'] + port =~= x + port);
    crate::text::lemma_rfind_char_concat(x, port, ':');
    assert(x.last() == ':');
    assert(rfind_char(x, ':') == Some(addr.len() as int));
    assert((x + port).take(addr.len() as int) =~= addr);
    assert((x + port).skip(addr.len() as int + 1) =~= port);
    assert(lead_br(addr) == 0);
    assert(addr.skip(0) =~= addr);
    assert(trail_br(addr) == 0);
    assert(addr.take(addr.len() - 0) =~= addr);
}

/// Without `:`, the whole text is the address and the port is empty.
pub proof fn law_split_without_colon(s: Seq<char>)
    requires
        !s.contains(':'),
    ensures
        split_addr_port_spec(s) == (s, Seq::<char>::empty()),
{
    crate::text::lemma_rfind_char_concat(Seq::empty(), s, ':');
    assert(Seq::<char>::empty() + s =~= s);
}

/// Number of leading ASCII digits.
pub open spec fn digit_run(s: Seq<char>) -> nat
    decreases s.len(),
{
    if s.len() == 0 || !is_digit(s[0]) {
        0
    } else {
        1 + digit_run(s.drop_first())
    }
}

/// Name of the first process in `users:(("name",pid=123,fd=5),...)`.
pub open spec fn process_name(raw: Seq<char>) -> Seq<char> {
    match find(raw, "((\""@) {
        Some(i) => {
            let rest = raw.skip(i + 3);
            match find_char(rest, '"') {
                Some(j) => rest.take(j),
                None => seq![],
            }
        },
        None => seq![],
    }
}

/// PID after the first `pid=`.
pub open spec fn process_pid(raw: Seq<char>) -> Option<u32> {
    match find(raw, "pid="@) {
        Some(i) => {
            let rest = raw.skip(i + 4);
            parse_u32(rest.take(digit_run(rest) as int))
        },
        None => None,
    }
}

pub open spec fn parse_process_spec(raw: Seq<char>) -> (Seq<char>, Option<u32>) {
    if raw.len() == 0 {
        (seq![], None)
    } else {
        (process_name(raw), process_pid(raw))
    }
}

/// `s` is the socket that the line `line` of `ss -tuanpH` describes:
/// `Netid State Recv-Q Send-Q Local:Port Peer:Port [Process...]`.
pub open spec fn parses_as(line: Seq<char>, s: Socket) -> bool {
    let t = tokens(line);
    let (la, lp) = split_addr_port_spec(t[4]);
    let (pa, pp) = split_addr_port_spec(t[5]);
    let (name, pid) = parse_process_spec(join(t.skip(6), seq![' ']));
    &&& t.len() >= 6
    &&& s.netid@ == t[0]
    &&& s.state@ == t[1]
    &&& s.recv_q == (match parse_u64(t[2]) {
        Some(v) => v,
        None => 0,
    })
    &&& s.send_q == (match parse_u64(t[3]) {
        Some(v) => v,
        None => 0,
    })
    &&& s.local_addr@ == la
    &&& s.local_port@ == lp
    &&& s.peer_addr@ == pa
    &&& s.peer_port@ == pp
    &&& s.process@ == name
    &&& s.pid == pid
}

fn trim_brackets_of(v: &Vec<char>) -> (r: Vec<char>)
    ensures
        r@ == trim_brackets(v@),
{
    let mut i: usize = 0;
    assert(v@.skip(0) =~= v@);
    while i < v.len() && (v[i] == '[' || v[i] == ']')
        invariant
            i <= v.len(),
            lead_br(v@) == i + lead_br(v@.skip(i as int)),
        decreases v.len() - i,
    {
        assert(v@.skip(i as int).drop_first() =~= v@.skip(i + 1));
        i = i + 1;
    }
    let t = slice_of(v, i, v.len());
    assert(t@ =~= v@.skip(lead_br(v@) as int));
    let mut j: usize = t.len();
    assert(t@.take(t.len() as int) =~= t@);
    while j > 0 && (t[j - 1] == '[' || t[j - 1] == ']')
        invariant
            j <= t.len(),
            trail_br(t@) == (t.len() - j) + trail_br(t@.take(j as int)),
        decreases j,
    {
        assert(t@.take(j as int).drop_last() =~= t@.take(j - 1));
        j = j - 1;
    }
    slice_of(&t, 0, j)
}

fn split_addr_port_chars(s: &Vec<char>) -> (r: (String, String))
    ensures
        r.0@ == split_addr_port_spec(s@).0,
        r.1@ == split_addr_port_spec(s@).1,
{
    match rfind_char_in(s, ':') {
        Some(idx) => {
            proof {
                crate::text::lemma_rfind_char(s@, ':');
                assert(rfind_char(s@, ':') == Some(idx as int));
            }
            assert(idx < s.len());
            let a = slice_of(s, 0, idx);
            let addr = trim_brackets_of(&a);
            let port = slice_of(s, idx + 1, s.len());
            assert(a@ =~= s@.take(idx as int));
            assert(port@ =~= s@.skip(idx + 1));
            (string_of(&addr), string_of(&port))
        },
        None => (string_of(s), String::new()),
    }
}

/// Address and port of `addr:port`, split at the last `:`; the address loses
/// the brackets of the IPv6 form `[::1]:80`; without `:`, all is address.
pub fn split_addr_port(s: &str) -> (r: (String, String))
    ensures
        (r.0@, r.1@) == split_addr_port_spec(s@),
{
    split_addr_port_chars(&chars_of(s))
}

fn digit_run_of(s: &Vec<char>, from: usize) -> (r: usize)
    requires
        from <= s.len(),
    ensures
        r == from + digit_run(s@.skip(from as int)),
        r <= s.len(),
{
    let mut j: usize = from;
    while j < s.len() && '0' <= s[j] && s[j] <= '9'
        invariant
            from <= j <= s.len(),
            digit_run(s@.skip(from as int)) == (j - from) + digit_run(s@.skip(j as int)),
        decreases s.len() - j,
    {
        assert(s@.skip(j as int).drop_first() =~= s@.skip(j + 1));
        j = j + 1;
    }
    j
}

fn parse_process_chars(raw: &Vec<char>) -> (r: (String, Option<u32>))
    ensures
        r.0@ == parse_process_spec(raw@).0,
        r.1 == parse_process_spec(raw@).1,
{
    if raw.len() == 0 {
        return (String::new(), None);
    }
    let name = match find_lit(raw, "((\"") {
        Some(i) => {
            proof {
                crate::text::lemma_find_from_bounds(raw@, "((\""@, 0);
                reveal_strlit("((\"");
            }
            let rest = slice_of(raw, i + 3, raw.len());
            assert(rest@ =~= raw@.skip(i + 3));
            match crate::text::find_char_in(&rest, '"') {
                Some(j) => {
                    proof {
                        crate::text::lemma_piece_len(rest@, '"');
                    }
                    let n = slice_of(&rest, 0, j);
                    assert(n@ =~= rest@.take(j as int));
                    string_of(&n)
                },
                None => String::new(),
            }
        },
        None => String::new(),
    };
    let pid = match find_lit(raw, "pid=") {
        Some(i) => {
            proof {
                crate::text::lemma_find_from_bounds(raw@, "pid="@, 0);
                reveal_strlit("pid=");
            }
            let rest = slice_of(raw, i + 4, raw.len());
            assert(rest@ =~= raw@.skip(i + 4));
            let end = digit_run_of(&rest, 0);
            assert(rest@.skip(0) =~= rest@);
            let digits = slice_of(&rest, 0, end);
            assert(digits@ =~= rest@.take(end as int));
            parse_u32_of(&digits)
        },
        None => None,
    };
    (name, pid)
}

/// Name and PID of the first process in `users:(("name",pid=123,fd=5),...)`.
pub fn parse_process(raw: &str) -> (r: (String, Option<u32>))
    ensures
        (r.0@, r.1) == parse_process_spec(raw@),
{
    parse_process_chars(&chars_of(raw))
}

/// Parses one line of `ss -tuanpH`; `None` when it has fewer than six fields.
pub fn parse_line(line: &str) -> (r: Option<Socket>)
    ensures
        r is Some <==> tokens(line@).len() >= 6,
        r matches Some(s) ==> parses_as(line@, s),
{
    let chars = chars_of(line);
    let fields = split_words(&chars);
    if fields.len() < 6 {
        return None;
    }
    let ghost t = views(fields@);
    let netid = string_of(&fields[0]);
    let state = string_of(&fields[1]);
    let recv_q = match parse_u64_of(&fields[2]) {
        Some(v) => v,
        None => 0,
    };
    let send_q = match parse_u64_of(&fields[3]) {
        Some(v) => v,
        None => 0,
    };
    let (local_addr, local_port) = split_addr_port_chars(&fields[4]);
    let (peer_addr, peer_port) = split_addr_port_chars(&fields[5]);
    let process_raw = join_spaced(&fields, 6);
    let (process, pid) = parse_process_chars(&process_raw);
    assert(t[0] == fields@[0]@ && t[1] == fields@[1]@ && t[2] == fields@[2]@ && t[3]
        == fields@[3]@ && t[4] == fields@[4]@ && t[5] == fields@[5]@);
    Some(
        Socket {
            netid,
            state,
            recv_q,
            send_q,
            local_addr,
            local_port,
            peer_addr,
            peer_port,
            process,
            pid,
        },
    )
}

/// `out` holds the sockets of the lines that parse, in order (the lines with
/// fewer than six fields are skipped).
pub open spec fn parsed_lines(ls: Seq<Seq<char>>, out: Seq<Socket>) -> bool
    decreases ls.len(),
{
    if ls.len() == 0 {
        out.len() == 0
    } else if tokens(ls.last()).len() >= 6 {
        out.len() > 0 && parses_as(ls.last(), out.last()) && parsed_lines(
            ls.drop_last(),
            out.drop_last(),
        )
    } else {
        parsed_lines(ls.drop_last(), out)
    }
}

/// Sockets of the output of `ss -tuanpH`, one per line that parses.
pub fn parse_output(text: &str) -> (r: Vec<Socket>)
    ensures
        parsed_lines(lines(text@), r@),
{
    let chars = chars_of(text);
    let ls = lines_of(&chars);
    let ghost lv = views(ls@);
    let mut r: Vec<Socket> = Vec::new();
    let mut i: usize = 0;
    while i < ls.len()
        invariant
            i <= ls.len(),
            lv == views(ls@),
            parsed_lines(lv.take(i as int), r@),
        decreases ls.len() - i,
    {
        let s = string_of(&ls[i]);
        let ghost prev = r@;
        assert(lv.take(i + 1).drop_last() =~= lv.take(i as int));
        assert(lv.take(i + 1).last() == s@);
        match parse_line(s.as_str()) {
            Some(sock) => {
                r.push(sock);
                assert(r@.drop_last() =~= prev);
            },
            None => {},
        }
        i = i + 1;
    }
    assert(lv.take(ls.len() as int) =~= lv);
    r
}

// ---------------------------------------------------------------------------
// Summary
// ---------------------------------------------------------------------------

/// Aggregate counts (as `ss -s` gives them), computed locally.
#[derive(Debug, Default, Clone)]
pub struct Summary {
    pub total: usize,
    pub tcp: usize,
    pub udp: usize,
    pub estab: usize,
    pub listen: usize,
    pub time_wait: usize,
    /// Listeners reachable from the network (not loopback).
    pub exposed: usize,
    /// Established connections coming IN from the local network (a LAN peer
    /// on one of our listening ports).
    pub inbound_lan: usize,
}

/// Number of sockets that satisfy `f`.
pub open spec fn count(s: Seq<Socket>, f: spec_fn(Socket) -> bool) -> nat
    decreases s.len(),
{
    if s.len() == 0 {
        0
    } else {
        count(s.drop_last(), f) + if f(s.last()) {
            1nat
        } else {
            0nat
        }
    }
}

pub proof fn lemma_count_le(s: Seq<Socket>, f: spec_fn(Socket) -> bool)
    ensures
        count(s, f) <= s.len(),
    decreases s.len(),
{
    if s.len() > 0 {
        lemma_count_le(s.drop_last(), f);
    }
}

/// Some socket listens on `port` with protocol `netid`.
pub open spec fn has_listener(ss: Seq<Socket>, netid: Seq<char>, port: Seq<char>) -> bool {
    exists|i: int|
        0 <= i < ss.len() && (#[trigger] ss[i]).state@ == "LISTEN"@ && ss[i].netid@ == netid
            && ss[i].local_port@ == port
}

/// An established network connection from a LAN peer to one of our
/// listening ports.
pub open spec fn inbound_from_lan(ss: Seq<Socket>, s: Socket) -> bool {
    network(s) && s.state@ == "ESTAB"@ && zone_of(s.peer_addr@) == Zone::Lan && has_listener(
        ss,
        s.netid@,
        s.local_port@,
    )
}

/// A network listener on any address but the loopback.
pub open spec fn listening_exposed(s: Socket) -> bool {
    network(s) && s.state@ == "LISTEN"@ && is_exposed_zone(zone_of(s.local_addr@))
}

/// Whether some socket listens on `port` with protocol `netid`.
pub fn listens_on(ss: &[Socket], netid: &String, port: &String) -> (r: bool)
    ensures
        r == has_listener(ss@, netid@, port@),
{
    let mut i: usize = 0;
    while i < ss.len()
        invariant
            i <= ss.len(),
            forall|k: int|
                0 <= k < i ==> !((#[trigger] ss@[k]).state@ == "LISTEN"@ && ss@[k].netid@
                    == netid@ && ss@[k].local_port@ == port@),
        decreases ss.len() - i,
    {
        let s = &ss[i];
        if string_is(&s.state, "LISTEN") && s.netid == *netid && s.local_port == *port {
            return true;
        }
        i = i + 1;
    }
    false
}

impl Summary {
    pub open spec fn describes(self, ss: Seq<Socket>) -> bool {
        &&& self.total == ss.len()
        &&& self.tcp == count(ss, |s: Socket| s.netid@ == "tcp"@)
        &&& self.udp == count(ss, |s: Socket| s.netid@ == "udp"@)
        &&& self.estab == count(ss, |s: Socket| s.state@ == "ESTAB"@)
        &&& self.listen == count(ss, |s: Socket| s.state@ == "LISTEN"@)
        &&& self.time_wait == count(ss, |s: Socket| s.state@ == "TIME-WAIT"@)
        &&& self.exposed == count(ss, |s: Socket| listening_exposed(s))
        &&& self.inbound_lan == count(ss, |s: Socket| inbound_from_lan(ss, s))
    }

    pub fn from(sockets: &[Socket]) -> (r: Summary)
        ensures
            r.describes(sockets@),
    {
        let ghost ss = sockets@;
        let ghost f_tcp = |s: Socket| s.netid@ == "tcp"@;
        let ghost f_udp = |s: Socket| s.netid@ == "udp"@;
        let ghost f_est = |s: Socket| s.state@ == "ESTAB"@;
        let ghost f_lis = |s: Socket| s.state@ == "LISTEN"@;
        let ghost f_tw = |s: Socket| s.state@ == "TIME-WAIT"@;
        let ghost f_exp = |s: Socket| listening_exposed(s);
        let ghost f_in = |s: Socket| inbound_from_lan(ss, s);
        let mut r = Summary {
            total: sockets.len(),
            tcp: 0,
            udp: 0,
            estab: 0,
            listen: 0,
            time_wait: 0,
            exposed: 0,
            inbound_lan: 0,
        };
        let mut i: usize = 0;
        while i < sockets.len()
            invariant
                i <= sockets.len(),
                ss == sockets@,
                r.total == ss.len(),
                r.tcp == count(ss.take(i as int), f_tcp),
                r.udp == count(ss.take(i as int), f_udp),
                r.estab == count(ss.take(i as int), f_est),
                r.listen == count(ss.take(i as int), f_lis),
                r.time_wait == count(ss.take(i as int), f_tw),
                r.exposed == count(ss.take(i as int), f_exp),
                r.inbound_lan == count(ss.take(i as int), f_in),
                f_tcp == (|s: Socket| s.netid@ == "tcp"@),
                f_udp == (|s: Socket| s.netid@ == "udp"@),
                f_est == (|s: Socket| s.state@ == "ESTAB"@),
                f_lis == (|s: Socket| s.state@ == "LISTEN"@),
                f_tw == (|s: Socket| s.state@ == "TIME-WAIT"@),
                f_exp == (|s: Socket| listening_exposed(s)),
                f_in == (|s: Socket| inbound_from_lan(ss, s)),
            decreases sockets.len() - i,
        {
            let sock = &sockets[i];
            let ghost t = ss.take(i + 1);
            assert(t.drop_last() =~= ss.take(i as int));
            assert(t.last() == *sock);
            proof {
                lemma_count_le(ss.take(i as int), f_tcp);
                lemma_count_le(ss.take(i as int), f_udp);
                lemma_count_le(ss.take(i as int), f_est);
                lemma_count_le(ss.take(i as int), f_lis);
                lemma_count_le(ss.take(i as int), f_tw);
                lemma_count_le(ss.take(i as int), f_exp);
                lemma_count_le(ss.take(i as int), f_in);
            }
            if string_is(&sock.netid, "tcp") {
                r.tcp = r.tcp + 1;
            }
            if string_is(&sock.netid, "udp") {
                r.udp = r.udp + 1;
            }
            let is_estab = string_is(&sock.state, "ESTAB");
            let is_listen = string_is(&sock.state, "LISTEN");
            if is_estab {
                r.estab = r.estab + 1;
            }
            if is_listen {
                r.listen = r.listen + 1;
            }
            if string_is(&sock.state, "TIME-WAIT") {
                r.time_wait = r.time_wait + 1;
            }
            let is_net = sock.is_network();
            if is_listen && is_net {
                let z = zone(sock.local_addr.as_str());
                if z != Zone::Loopback {
                    r.exposed = r.exposed + 1;
                }
            }
            if is_estab && is_net && zone(sock.peer_addr.as_str()) == Zone::Lan && listens_on(
                sockets,
                &sock.netid,
                &sock.local_port,
            ) {
                r.inbound_lan = r.inbound_lan + 1;
            }
            i = i + 1;
        }
        assert(ss.take(sockets.len() as int) =~= ss);
        r
    }
}

/// One more socket in the listing adds one to the total and one to each
/// count it belongs to: `tcp`/`udp` by protocol, `estab`, `listen` and
/// `time_wait` by state, and `exposed` when it is a TCP or UDP listener on
/// any address but the loopback.
pub proof fn law_summary_counts_each_socket(r1: Summary, r2: Summary, ss: Seq<Socket>, x: Socket)
    requires
        r1.describes(ss),
        r2.describes(ss.push(x)),
    ensures
        r2.total == r1.total + 1,
        r2.tcp == r1.tcp + if x.netid@ == "tcp"@ { 1int } else { 0int },
        r2.udp == r1.udp + if x.netid@ == "udp"@ { 1int } else { 0int },
        r2.estab == r1.estab + if x.state@ == "ESTAB"@ { 1int } else { 0int },
        r2.listen == r1.listen + if x.state@ == "LISTEN"@ { 1int } else { 0int },
        r2.time_wait == r1.time_wait + if x.state@ == "TIME-WAIT"@ { 1int } else { 0int },
        r2.exposed == r1.exposed + if (x.netid@ == "tcp"@ || x.netid@ == "udp"@) && x.state@ == "LISTEN"@ && zone_of(
            x.local_addr@,
        ) != Zone::Loopback {
            1int
        } else {
            0int
        },
{
    assert(ss.push(x).drop_last() =~= ss);
    assert(ss.push(x).last() == x);
}

/// A field of a line: not empty and without white space.
pub open spec fn plain_field(w: Seq<char>) -> bool {
    w.len() > 0 && forall|i: int| 0 <= i < w.len() ==> !crate::text::is_ws(#[trigger] w[i])
}

proof fn lemma_no_ws_digits(v: u64)
    ensures
        plain_field(dec(v as nat)),
        parse_u64(dec(v as nat)) == Some(v),
{
    crate::text::lemma_dec_digits(v as nat);
    let d = dec(v as nat);
    assert forall|i: int| 0 <= i < d.len() implies !crate::text::is_ws(#[trigger] d[i]) by {
        assert(crate::text::is_digit(d[i]));
    }
    assert(crate::text::is_digit(d[0]));
}

/// A line of `ss` without a process field reads back as its fields:
/// protocol, state, receive and send queues, local and remote address and
/// port; with no process and no PID.
#[verifier::spinoff_prover]
pub proof fn law_parse_line_fields(
    netid: Seq<char>,
    state: Seq<char>,
    recv_q: u64,
    send_q: u64,
    la: Seq<char>,
    lp: Seq<char>,
    pa: Seq<char>,
    pp: Seq<char>,
)
    requires
        plain_field(netid),
        plain_field(state),
        plain_field(la + seq![':'] + lp),
        plain_field(pa + seq![':'] + pp),
        !lp.contains(':'),
        !pp.contains(':'),
        la.len() > 0 ==> !is_bracket(la[0]) && !is_bracket(la.last()),
        pa.len() > 0 ==> !is_bracket(pa[0]) && !is_bracket(pa.last()),
    ensures
        ({
            let line = netid + seq![' '] + state + seq![' '] + dec(recv_q as nat) + seq![' '] + dec(send_q as nat)
                + seq![' '] + (la + seq![':'] + lp) + seq![' '] + (pa + seq![':'] + pp);
            &&& tokens(line).len() == 6
            &&& forall|s: Socket|
                #[trigger] parses_as(line, s) ==> {
                    &&& s.netid@ == netid
                    &&& s.state@ == state
                    &&& s.recv_q == recv_q
                    &&& s.send_q == send_q
                    &&& s.local_addr@ == la
                    &&& s.local_port@ == lp
                    &&& s.peer_addr@ == pa
                    &&& s.peer_port@ == pp
                    &&& s.process@.len() == 0
                    &&& s.pid is None
                }
        }),
{
    let dr = dec(recv_q as nat);
    let ds = dec(send_q as nat);
    lemma_no_ws_digits(recv_q);
    lemma_no_ws_digits(send_q);
    let l = la + seq![':'] + lp;
    let p = pa + seq![':'] + pp;
    let line = netid + seq![' '] + state + seq![' '] + dr + seq![' '] + ds + seq![' '] + l + seq![' '] + p;
    let r5 = p;
    let r4 = l + seq![' '] + r5;
    let r3 = ds + seq![' '] + r4;
    let r2 = dr + seq![' '] + r3;
    let r1 = state + seq![' '] + r2;
    assert(line =~= netid + seq![' '] + r1);
    crate::text::lemma_tokens_word(netid, r1);
    crate::text::lemma_tokens_word(state, r2);
    crate::text::lemma_tokens_word(dr, r3);
    crate::text::lemma_tokens_word(ds, r4);
    crate::text::lemma_tokens_word(l, r5);
    crate::text::lemma_tokens_word(p, Seq::empty());
    let t = tokens(line);
    assert(t =~= seq![netid, state, dr, ds, l, p]);
    assert(t.skip(6) =~= Seq::<Seq<char>>::empty());
    assert(crate::text::join(t.skip(6), seq![' ']) =~= Seq::<char>::empty());
    law_split_addr_port_round_trip(la, lp);
    law_split_addr_port_round_trip(pa, pp);
}

} // verus!
