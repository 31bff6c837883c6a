//! Defensive triage: the sockets sorted into what a one-shot report shows
//! (exposed services, connections coming in from the LAN, connections to the
//! internet and to the LAN). Printing the report is the application's.
use crate::analysis::{first_browser, is_exposed_zone, names, zone, zone_of, Zone};
use crate::socket::{exposed, local_of, network, peer_of, Socket};
use crate::text::{dec, join, lex_less, lex_lt, push_dec, string_is, views};
use vstd::prelude::*;

verus! {

/// A network listener on `port` with protocol `netid`.
pub open spec fn net_listener(ss: Seq<Socket>, netid: Seq<char>, port: Seq<char>) -> bool {
    exists|i: int|
        0 <= i < ss.len() && network(#[trigger] ss[i]) && ss[i].state@ == "LISTEN"@ && ss[i].netid@
            == netid && ss[i].local_port@ == port
}

pub open spec fn is_exposed_service(s: Socket) -> bool {
    network(s) && s.state@ == "LISTEN"@ && is_exposed_zone(zone_of(s.local_addr@))
}

pub open spec fn established(s: Socket, z: Zone) -> bool {
    network(s) && s.state@ == "ESTAB"@ && zone_of(s.peer_addr@) == z
}

pub open spec fn is_inbound_lan(all: Seq<Socket>, s: Socket) -> bool {
    established(s, Zone::Lan) && net_listener(all, s.netid@, s.local_port@)
}

pub open spec fn is_out_lan(all: Seq<Socket>, s: Socket) -> bool {
    established(s, Zone::Lan) && !net_listener(all, s.netid@, s.local_port@)
}

/// Positions (in order) of the sockets among the first `n` that satisfy `f`.
pub open spec fn picks(ss: Seq<Socket>, n: int, f: spec_fn(Socket) -> bool) -> Seq<usize>
    decreases n,
{
    if n <= 0 {
        seq![]
    } else {
        picks(ss, n - 1, f) + if f(ss[n - 1]) {
            seq![(n - 1) as usize]
        } else {
            seq![]
        }
    }
}

/// The sockets sorted for the report, as positions in the listing.
pub struct Triage {
    /// Listening services reachable from the network.
    pub exposed: Vec<usize>,
    /// Established connections from a LAN peer to one of our listeners.
    pub inbound_lan: Vec<usize>,
    /// Established connections with the internet.
    pub out_public: Vec<usize>,
    /// Established connections to the LAN (outgoing).
    pub out_lan: Vec<usize>,
}

fn net_listens_on(ss: &[Socket], netid: &String, port: &String) -> (r: bool)
    ensures
        r == net_listener(ss@, netid@, port@),
{
    let mut i: usize = 0;
    while i < ss.len()
        invariant
            i <= ss.len(),
            forall|k: int|
                0 <= k < i ==> !(network(#[trigger] ss@[k]) && ss@[k].state@ == "LISTEN"@
                    && ss@[k].netid@ == netid@ && ss@[k].local_port@ == port@),
        decreases ss.len() - i,
    {
        let s = &ss[i];
        if s.is_network() && string_is(&s.state, "LISTEN") && s.netid == *netid && s.local_port
            == *port {
            return true;
        }
        i = i + 1;
    }
    false
}

/// Sorts the listing for the report.
pub fn classify(sockets: &[Socket]) -> (r: Triage)
    ensures
        r.exposed@ == picks(sockets@, sockets@.len() as int, |s: Socket| is_exposed_service(s)),
        r.inbound_lan@ == picks(
            sockets@,
            sockets@.len() as int,
            |s: Socket| is_inbound_lan(sockets@, s),
        ),
        r.out_public@ == picks(
            sockets@,
            sockets@.len() as int,
            |s: Socket| established(s, Zone::Public),
        ),
        r.out_lan@ == picks(sockets@, sockets@.len() as int, |s: Socket| is_out_lan(sockets@, s)),
{
    let ghost ss = sockets@;
    let ghost f1 = |s: Socket| is_exposed_service(s);
    let ghost f2 = |s: Socket| is_inbound_lan(ss, s);
    let ghost f3 = |s: Socket| established(s, Zone::Public);
    let ghost f4 = |s: Socket| is_out_lan(ss, s);
    let mut exposed: Vec<usize> = Vec::new();
    let mut inbound_lan: Vec<usize> = Vec::new();
    let mut out_public: Vec<usize> = Vec::new();
    let mut out_lan: Vec<usize> = Vec::new();
    let mut i: usize = 0;
    while i < sockets.len()
        invariant
            i <= sockets.len(),
            ss == sockets@,
            f1 == (|s: Socket| is_exposed_service(s)),
            f2 == (|s: Socket| is_inbound_lan(ss, s)),
            f3 == (|s: Socket| established(s, Zone::Public)),
            f4 == (|s: Socket| is_out_lan(ss, s)),
            exposed@ == picks(ss, i as int, f1),
            inbound_lan@ == picks(ss, i as int, f2),
            out_public@ == picks(ss, i as int, f3),
            out_lan@ == picks(ss, i as int, f4),
        decreases sockets.len() - i,
    {
        let s = &sockets[i];
        let ghost (b1, b2, b3, b4) = (exposed@, inbound_lan@, out_public@, out_lan@);
        if s.is_network() {
            if string_is(&s.state, "LISTEN") {
                let z = zone(s.local_addr.as_str());
                if z != Zone::Loopback {
                    exposed.push(i);
                }
            }
            if string_is(&s.state, "ESTAB") {
                let pz = zone(s.peer_addr.as_str());
                let is_inbound = net_listens_on(sockets, &s.netid, &s.local_port);
                match pz {
                    Zone::Lan => {
                        if is_inbound {
                            inbound_lan.push(i);
                        } else {
                            out_lan.push(i);
                        }
                    },
                    Zone::Public => out_public.push(i),
                    _ => {},
                }
            }
        }
        proof {
            reveal_strlit("LISTEN");
            reveal_strlit("ESTAB");
        }
        assert(exposed@ =~= picks(ss, i + 1, f1));
        assert(inbound_lan@ =~= picks(ss, i + 1, f2));
        assert(out_public@ =~= picks(ss, i + 1, f3));
        assert(out_lan@ =~= picks(ss, i + 1, f4));
        i = i + 1;
    }
    Triage { exposed, inbound_lan, out_public, out_lan }
}

/// Strictly increasing in the order of `str` (so without repeats).
pub open spec fn sorted_strictly(v: Seq<Seq<char>>) -> bool {
    forall|a: int, b: int| 0 <= a < b < v.len() ==> lex_lt(#[trigger] v[a], #[trigger] v[b])
}

pub open spec fn strings(v: Seq<String>) -> Seq<Seq<char>> {
    v.map_values(|s: String| s@)
}

/// The remote addresses of the sockets at `picked`, sorted, without repeats:
/// the addresses to resolve for the report.
pub fn public_ips(sockets: &[Socket], picked: &Vec<usize>) -> (r: Vec<String>)
    requires
        forall|k: int| 0 <= k < picked@.len() ==> #[trigger] picked@[k] < sockets@.len(),
    ensures
        sorted_strictly(strings(r@)),
        forall|a: Seq<char>|
            strings(r@).contains(a) <==> exists|k: int|
                0 <= k < picked@.len() && #[trigger] sockets@[picked@[k] as int].peer_addr@ == a,
{
    let mut r: Vec<String> = Vec::new();
    let mut k: usize = 0;
    while k < picked.len()
        invariant
            k <= picked.len(),
            forall|m: int| 0 <= m < picked@.len() ==> #[trigger] picked@[m] < sockets@.len(),
            sorted_strictly(strings(r@)),
            forall|a: Seq<char>|
                strings(r@).contains(a) <==> exists|m: int|
                    0 <= m < k && #[trigger] sockets@[picked@[m] as int].peer_addr@ == a,
        decreases picked.len() - k,
    {
        let ip = &sockets[picked[k]].peer_addr;
        let ghost a = ip@;
        let ghost old_r = strings(r@);
        let ipc = crate::text::chars_of_string(ip);
        // First position whose address is not before `ip`.
        let mut p: usize = 0;
        while p < r.len() && lex_less(&crate::text::chars_of_string(&r[p]), &ipc)
            invariant
                p <= r.len(),
                old_r == strings(r@),
                ipc@ == a,
                forall|q: int| 0 <= q < p ==> lex_lt(#[trigger] old_r[q], a),
            decreases r.len() - p,
        {
            p = p + 1;
        }
        let dup = p < r.len() && r[p] == *ip;
        if !dup {
            proof {
                if p < old_r.len() {
                    crate::text::lemma_lex_total(old_r[p as int], a);
                    assert(lex_lt(a, old_r[p as int]));
                    assert forall|q: int| p < q < old_r.len() implies lex_lt(a, #[trigger] old_r[q]) by {
                        crate::text::lemma_lex_trans(a, old_r[p as int], old_r[q]);
                    }
                }
            }
            r.insert(p, ip.clone());
            proof {
                assert(strings(r@) =~= old_r.insert(p as int, a));
                let nr = strings(r@);
                assert forall|x: int, y: int| 0 <= x < y < nr.len() implies lex_lt(#[trigger] nr[x], #[trigger] nr[y]) by {
                    if y < p {
                        assert(nr[x] == old_r[x] && nr[y] == old_r[y]);
                    } else if y == p {
                        assert(nr[x] == old_r[x]);
                    } else if x < p {
                        assert(nr[x] == old_r[x] && nr[y] == old_r[y - 1]);
                        crate::text::lemma_lex_trans(old_r[x], a, old_r[y - 1]);
                    } else if x == p {
                        assert(nr[y] == old_r[y - 1]);
                    } else {
                        assert(nr[x] == old_r[x - 1] && nr[y] == old_r[y - 1]);
                    }
                }
                assert forall|b: Seq<char>| nr.contains(b) <==> (old_r.contains(b) || b == a) by {
                    if nr.contains(b) {
                        let w = choose|w: int| 0 <= w < nr.len() && nr[w] == b;
                        if w < p {
                            assert(old_r[w] == b);
                        } else if w > p {
                            assert(old_r[w - 1] == b);
                        }
                    }
                    if old_r.contains(b) {
                        let w = choose|w: int| 0 <= w < old_r.len() && old_r[w] == b;
                        if w < p {
                            assert(nr[w] == b);
                        } else {
                            assert(nr[w + 1] == b);
                        }
                    }
                    if b == a {
                        assert(nr[p as int] == a);
                    }
                }
            }
        } else {
            assert(old_r[p as int] == a);
        }
        proof {
            assert forall|b: Seq<char>| strings(r@).contains(b) <==> exists|m: int|
                0 <= m < k + 1 && #[trigger] sockets@[picked@[m] as int].peer_addr@ == b by {
                if exists|m: int| 0 <= m < k + 1 && #[trigger] sockets@[picked@[m] as int].peer_addr@ == b {
                    let m = choose|m: int| 0 <= m < k + 1 && #[trigger] sockets@[picked@[m] as int].peer_addr@ == b;
                    if m < k {
                        assert(old_r.contains(b));
                    }
                }
                if old_r.contains(b) {
                    assert(exists|m: int| 0 <= m < k && #[trigger] sockets@[picked@[m] as int].peer_addr@ == b);
                    let m = choose|m: int| 0 <= m < k && #[trigger] sockets@[picked@[m] as int].peer_addr@ == b;
                    assert(sockets@[picked@[m] as int].peer_addr@ == b);
                }
                if b == a {
                    assert(sockets@[picked@[k as int] as int].peer_addr@ == b);
                }
                if dup {
                    assert(old_r.contains(a));
                }
            }
        }
        k = k + 1;
    }
    r
}

/// How many of the sockets at `picked` come from a browser (or a descendant).
pub open spec fn via_browser_count(ss: Seq<Socket>, picked: Seq<usize>, bp: Seq<u32>) -> nat
    decreases picked.len(),
{
    if picked.len() == 0 {
        0
    } else {
        via_browser_count(ss, picked.drop_last(), bp) + if crate::events::via_browser(
            ss[picked.last() as int],
            bp,
        ) {
            1nat
        } else {
            0nat
        }
    }
}

pub fn count_via_browser(sockets: &[Socket], picked: &Vec<usize>, browser_pids: &[u32]) -> (n: usize)
    requires
        forall|k: int| 0 <= k < picked@.len() ==> #[trigger] picked@[k] < sockets@.len(),
    ensures
        n == via_browser_count(sockets@, picked@, browser_pids@),
{
    let mut n: usize = 0;
    let mut k: usize = 0;
    while k < picked.len()
        invariant
            k <= picked.len(),
            forall|m: int| 0 <= m < picked@.len() ==> #[trigger] picked@[m] < sockets@.len(),
            n == via_browser_count(sockets@, picked@.take(k as int), browser_pids@),
            n <= k,
        decreases picked.len() - k,
    {
        assert(picked@.take(k + 1).drop_last() =~= picked@.take(k as int));
        assert(picked@.take(k + 1).last() == picked@[k as int]);
        let s = &sockets[picked[k]];
        let via = match s.pid {
            Some(p) => crate::events::pid_listed(browser_pids, p),
            None => false,
        };
        if via {
            n = n + 1;
        }
        k = k + 1;
    }
    assert(picked@.take(picked.len() as int) =~= picked@);
    n
}

/// `name(pid N)`, and when the process descends from a browser, the first
/// four names of its ancestry joined by ` ← `.
pub open spec fn label_spec(s: Socket, chain: Seq<Seq<char>>) -> Seq<char> {
    let name = if s.process@.len() == 0 {
        "?"@
    } else {
        s.process@
    };
    let pid = match s.pid {
        Some(p) => dec(p as nat),
        None => "-"@,
    };
    let base = name + "(pid "@ + pid + ")"@;
    match first_browser(chain) {
        Some(_) => base + "  ⚠ via NAVEGADOR ("@ + join(
            chain.take(if chain.len() < 4 {
                chain.len() as int
            } else {
                4
            }),
            " ← "@,
        ) + ")"@,
        None => base,
    }
}

/// Label of a socket's process for the report, given the names of its
/// process and ancestors (`chain`, empty when the PID is unknown).
pub fn label(s: &Socket, chain: &Vec<String>) -> (r: String)
    ensures
        r@ == label_spec(*s, names(chain@)),
{
    let mut r = String::new();
    if s.process.as_str().is_empty() {
        r.append("?");
    } else {
        r.append(s.process.as_str());
    }
    r.append("(pid ");
    match s.pid {
        Some(p) => push_dec(&mut r, p as u64),
        None => r.append("-"),
    }
    r.append(")");
    match crate::analysis::browser_ancestor(chain) {
        Some(_) => {
            r.append("  ⚠ via NAVEGADOR (");
            let n: usize = if chain.len() < 4 {
                chain.len()
            } else {
                4
            };
            let ghost cv = names(chain@);
            let ghost before = r@;
            let mut k: usize = 0;
            while k < n
                invariant
                    k <= n <= chain.len(),
                    cv == names(chain@),
                    r@ == before + join(cv.take(k as int), " ← "@),
                decreases n - k,
            {
                let ghost t = cv.take(k + 1);
                assert(t.drop_last() =~= cv.take(k as int));
                assert(t.last() == chain@[k as int]@);
                if k > 0 {
                    r.append(" ← ");
                }
                r.append(chain[k].as_str());
                proof {
                    if k > 0 {
                        assert(r@ =~= before + (join(t.drop_last(), " ← "@) + " ← "@ + t.last()));
                    } else {
                        assert(join(cv.take(0), " ← "@) =~= Seq::<char>::empty());
                        assert(t.len() == 1);
                        assert(r@ =~= before + t[0]);
                    }
                }
                k = k + 1;
            }
            r.append(")");
        },
        None => {},
    }
    r
}

proof fn lemma_picks_count(ss: Seq<Socket>, n: int, f: spec_fn(Socket) -> bool, g: spec_fn(Socket) -> bool)
    requires
        0 <= n <= ss.len(),
        forall|x: Socket| #[trigger] f(x) == g(x),
    ensures
        picks(ss, n, f).len() == crate::socket::count(ss.take(n), g),
    decreases n,
{
    if n > 0 {
        lemma_picks_count(ss, n - 1, f, g);
        assert(ss.take(n).drop_last() =~= ss.take(n - 1));
        assert(ss.take(n).last() == ss[n - 1]);
    } else {
        assert(ss.take(0).len() == 0);
    }
}

/// The report lists as many exposed services and connections coming in from
/// the LAN as the summary counts.
pub proof fn law_report_agrees_with_summary(ss: Seq<Socket>, r: crate::socket::Summary)
    requires
        r.describes(ss),
    ensures
        picks(ss, ss.len() as int, |s: Socket| is_exposed_service(s)).len() == r.exposed,
        picks(ss, ss.len() as int, |s: Socket| is_inbound_lan(ss, s)).len() == r.inbound_lan,
{
    assert(ss.take(ss.len() as int) =~= ss);
    lemma_picks_count(
        ss,
        ss.len() as int,
        |s: Socket| is_exposed_service(s),
        |s: Socket| crate::socket::listening_exposed(s),
    );
    assert forall|x: Socket| #[trigger] is_inbound_lan(ss, x) == crate::socket::inbound_from_lan(ss, x) by {
        if crate::socket::inbound_from_lan(ss, x) {
            let i = choose|i: int|
                0 <= i < ss.len() && (#[trigger] ss[i]).state@ == "LISTEN"@ && ss[i].netid@ == x.netid@
                    && ss[i].local_port@ == x.local_port@;
            assert(network(ss[i]));
        }
    }
    lemma_picks_count(
        ss,
        ss.len() as int,
        |s: Socket| is_inbound_lan(ss, s),
        |s: Socket| crate::socket::inbound_from_lan(ss, s),
    );
}

} // verus!
