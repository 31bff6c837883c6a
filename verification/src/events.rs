//! Defensive events: which listeners appeared or went away and which
//! connections came in from the LAN since the previous look, for an on-disk
//! log that keeps only high-signal events. Writing the log is the
//! application's; here is what gets written.
use crate::analysis::{zone, zone_label, zone_of, Zone};
use crate::keyed::{contains_key, has_key, key_index, kv_put, kv_view, put};
use crate::socket::{key_of, listens_on, local_of, peer_of, Socket};
use crate::text::{dec, push_dec, string_is};
use vstd::prelude::*;

verus! {

#[derive(Debug, Clone, Copy, PartialEq, Eq, Structural)]
pub enum Severity {
    Info,
    High,
}

pub open spec fn severity_tag(s: Severity) -> Seq<char> {
    match s {
        Severity::Info => "INFO"@,
        Severity::High => "HIGH"@,
    }
}

impl Severity {
    pub fn tag(self) -> (r: &'static str)
        ensures
            r@ == severity_tag(self),
    {
        match self {
            Severity::Info => "INFO",
            Severity::High => "HIGH",
        }
    }
}

pub open spec fn notif_title_spec(kind: Seq<char>) -> Seq<char> {
    if kind == "LISTEN_NEW"@ {
        "🛡 Novo serviço escutando exposto"@
    } else if kind == "LAN_INBOUND"@ {
        "🛡 Conexão entrando da rede local"@
    } else if kind == "DNS_SUSPECT"@ {
        "🛡 DNS suspeito na rede"@
    } else if kind == "FIREWALL"@ {
        "🛡 Firewall desprotegido"@
    } else {
        "🛡 shell_mon"@
    }
}

/// Friendly title of the desktop notification for a kind of event.
pub fn notif_title(kind: &str) -> (r: &'static str)
    ensures
        r@ == notif_title_spec(kind@),
{
    let k = crate::text::chars_of(kind);
    if crate::text::is_lit(&k, "LISTEN_NEW") {
        "🛡 Novo serviço escutando exposto"
    } else if crate::text::is_lit(&k, "LAN_INBOUND") {
        "🛡 Conexão entrando da rede local"
    } else if crate::text::is_lit(&k, "DNS_SUSPECT") {
        "🛡 DNS suspeito na rede"
    } else if crate::text::is_lit(&k, "FIREWALL") {
        "🛡 Firewall desprotegido"
    } else {
        "🛡 shell_mon"
    }
}

/// A listener, for its description and for the diff.
pub struct ListenInfo {
    pub exposed: bool,
    pub desc: String,
}

impl View for ListenInfo {
    type V = (bool, Seq<char>);

    open spec fn view(&self) -> (bool, Seq<char>) {
        (self.exposed, self.desc@)
    }
}

/// One line of the event log (before its timestamp).
pub struct LogEvent {
    pub severity: Severity,
    pub kind: String,
    pub desc: String,
}

pub open spec fn event_view(e: LogEvent) -> (Severity, Seq<char>, Seq<char>) {
    (e.severity, e.kind@, e.desc@)
}

pub open spec fn events_view(v: Seq<LogEvent>) -> Seq<(Severity, Seq<char>, Seq<char>)> {
    v.map_values(|e: LogEvent| event_view(e))
}

/// `k` padded with spaces to 16 characters (as `{:16}` formats it).
pub open spec fn pad16(k: Seq<char>) -> Seq<char> {
    if k.len() < 16 {
        k + Seq::new((16 - k.len()) as nat, |_i: int| ' ')
    } else {
        k
    }
}

/// The log line of an event at the local date and time `stamp`:
/// `stamp  [SEV] kind(padded to 16) desc`, with its end of line.
pub open spec fn log_line_spec(stamp: Seq<char>, e: (Severity, Seq<char>, Seq<char>)) -> Seq<char> {
    stamp + "  ["@ + severity_tag(e.0) + "] "@ + pad16(e.1) + " "@ + e.2 + "\n"@
}

impl LogEvent {
    /// The line written to the log for this event at `stamp`.
    pub fn line(&self, stamp: &str) -> (r: String)
        ensures
            r@ == log_line_spec(stamp@, event_view(*self)),
    {
        let mut r = String::new();
        r.append(stamp);
        r.append("  [");
        r.append(self.severity.tag());
        r.append("] ");
        r.append(self.kind.as_str());
        let n = self.kind.as_str().unicode_len();
        let ghost before = r@;
        let mut k: usize = n;
        while k < 16
            invariant
                n == self.kind@.len(),
                n <= k <= 16 || (n > 16 && k == n),
                r@ == before + Seq::new((k - n) as nat, |_i: int| ' '),
            decreases 16 - k,
        {
            crate::text::push_char(&mut r, ' ');
            proof {
                assert(r@ =~= before + Seq::new((k + 1 - n) as nat, |_i: int| ' '));
            }
            k = k + 1;
        }
        proof {
            if n >= 16 {
                assert(Seq::new((k - n) as nat, |_i: int| ' ') =~= Seq::<char>::empty());
            }
        }
        r.append(" ");
        r.append(self.desc.as_str());
        r.append("\n");
        proof {
            reveal_strlit("  [");
            reveal_strlit("] ");
            reveal_strlit(" ");
            reveal_strlit("\n");
            assert(r@ =~= log_line_spec(stamp@, event_view(*self)));
        }
        r
    }

    /// The desktop notification for this event, as (title, body): only a
    /// high-severity event gets one.
    pub fn notification(&self) -> (r: Option<(&'static str, String)>)
        ensures
            match r {
                Some((t, b)) => self.severity == Severity::High && t@ == notif_title_spec(self.kind@)
                    && b@ == self.desc@,
                None => self.severity != Severity::High,
            },
    {
        if self.severity == Severity::High {
            Some((notif_title(self.kind.as_str()), self.desc.clone()))
        } else {
            None
        }
    }
}

// ---------------------------------------------------------------------------
// Descriptions
// ---------------------------------------------------------------------------

/// The connection was opened by a browser or a descendant of one
/// (`browser_pids` lists the PIDs with a browser among their ancestors).
pub open spec fn via_browser(s: Socket, browser_pids: Seq<u32>) -> bool {
    match s.pid {
        Some(p) => browser_pids.contains(p),
        None => false,
    }
}

/// `name, pid N`, with a warning when the connection comes from a browser.
pub open spec fn proc_label_spec(s: Socket, browser_pids: Seq<u32>) -> Seq<char> {
    let name = if s.process@.len() == 0 {
        "?"@
    } else {
        s.process@
    };
    let pid = match s.pid {
        Some(p) => dec(p as nat),
        None => "-"@,
    };
    if via_browser(s, browser_pids) {
        name + ", pid "@ + pid + " ⚠via-navegador"@
    } else {
        name + ", pid "@ + pid
    }
}

pub open spec fn scope_of(z: Zone) -> Seq<char> {
    if z == Zone::Any {
        "todas as interfaces"@
    } else {
        zone_label(z)
    }
}

/// `netid local (process) [scope]`.
pub open spec fn listen_desc(s: Socket, bp: Seq<u32>) -> Seq<char> {
    s.netid@ + " "@ + local_of(s) + " ("@ + proc_label_spec(s, bp) + ") ["@ + scope_of(
        zone_of(s.local_addr@),
    ) + "]"@
}

/// `peer → local (process)`.
pub open spec fn inbound_desc(s: Socket, bp: Seq<u32>) -> Seq<char> {
    peer_of(s) + " → "@ + local_of(s) + " ("@ + proc_label_spec(s, bp) + ")"@
}

pub fn pid_listed(pids: &[u32], p: u32) -> (r: bool)
    ensures
        r == pids@.contains(p),
{
    let mut i: usize = 0;
    while i < pids.len()
        invariant
            i <= pids.len(),
            forall|k: int| 0 <= k < i ==> pids@[k] != p,
        decreases pids.len() - i,
    {
        if pids[i] == p {
            assert(pids@[i as int] == p);
            return true;
        }
        i = i + 1;
    }
    false
}

/// Process label of a socket, with a warning when it comes from a browser.
pub fn proc_label(s: &Socket, browser_pids: &[u32]) -> (r: String)
    ensures
        r@ == proc_label_spec(*s, browser_pids@),
{
    let mut r = String::new();
    if s.process.as_str().is_empty() {
        r.append("?");
    } else {
        r.append(s.process.as_str());
    }
    r.append(", pid ");
    match s.pid {
        Some(p) => push_dec(&mut r, p as u64),
        None => r.append("-"),
    }
    let via = match s.pid {
        Some(p) => pid_listed(browser_pids, p),
        None => false,
    };
    if via {
        r.append(" ⚠via-navegador");
    }
    r
}

fn listen_desc_of(s: &Socket, bp: &[u32]) -> (r: String)
    ensures
        r@ == listen_desc(*s, bp@),
{
    let z = zone(s.local_addr.as_str());
    let mut d = s.netid.clone();
    d.append(" ");
    d.append(s.local().as_str());
    d.append(" (");
    d.append(proc_label(s, bp).as_str());
    d.append(") [");
    if z == Zone::Any {
        d.append("todas as interfaces");
    } else {
        d.append(z.label());
    }
    d.append("]");
    d
}

fn inbound_desc_of(s: &Socket, bp: &[u32]) -> (r: String)
    ensures
        r@ == inbound_desc(*s, bp@),
{
    let mut d = s.peer();
    d.append(" → ");
    d.append(s.local().as_str());
    d.append(" (");
    d.append(proc_label(s, bp).as_str());
    d.append(")");
    d
}

// ---------------------------------------------------------------------------
// Snapshot
// ---------------------------------------------------------------------------

/// The views of a list of keys.
pub open spec fn key_views(v: Seq<String>) -> Seq<Seq<char>> {
    v.map_values(|k: String| k@)
}

/// A socket the log follows as a listener: a network socket in `LISTEN`, or
/// an exposed one (UDP on the wildcard address) whose key is among the
/// exposures that count (`st`, after the debounce).
pub open spec fn logged_listener(s: Socket, st: Seq<Seq<char>>) -> bool {
    crate::socket::network(s) && (s.state@ == "LISTEN"@ || (crate::socket::exposed(s) && st.contains(key_of(s))))
}

/// Listeners by key, each with whether it is exposed and its description.
pub open spec fn listen_items(ss: Seq<Socket>, st: Seq<Seq<char>>, bp: Seq<u32>) -> Seq<(Seq<char>, (bool, Seq<char>))>
    decreases ss.len(),
{
    if ss.len() == 0 {
        seq![]
    } else {
        let prev = listen_items(ss.drop_last(), st, bp);
        let s = ss.last();
        if logged_listener(s, st) {
            kv_put(
                prev,
                key_of(s),
                (crate::analysis::is_exposed_zone(zone_of(s.local_addr@)), listen_desc(s, bp)),
            )
        } else {
            prev
        }
    }
}

/// Connections coming in from the LAN by key (among the sockets `ss` of the
/// whole listing `all`), each with its description.
pub open spec fn inbound_items(ss: Seq<Socket>, all: Seq<Socket>, bp: Seq<u32>) -> Seq<
    (Seq<char>, Seq<char>),
>
    decreases ss.len(),
{
    if ss.len() == 0 {
        seq![]
    } else {
        let prev = inbound_items(ss.drop_last(), all, bp);
        let s = ss.last();
        if crate::socket::inbound_from_lan(all, s) {
            kv_put(prev, key_of(s), inbound_desc(s, bp))
        } else {
            prev
        }
    }
}

fn key_listed(v: &[String], k: &String) -> (r: bool)
    ensures
        r == key_views(v@).contains(k@),
{
    let mut i: usize = 0;
    while i < v.len()
        invariant
            i <= v.len(),
            forall|j: int| 0 <= j < i ==> (#[trigger] v@[j])@ != k@,
        decreases v.len() - i,
    {
        if v[i] == *k {
            assert(key_views(v@)[i as int] == k@);
            return true;
        }
        i = i + 1;
    }
    assert forall|j: int| 0 <= j < key_views(v@).len() implies key_views(v@)[j] != k@ by {
        assert(key_views(v@)[j] == v@[j]@);
    }
    false
}

/// The listeners (with the exposures `stable` that count) and the
/// connections coming in from the LAN, by key.
pub fn snapshot(sockets: &[Socket], stable: &[String], browser_pids: &[u32]) -> (r: (
    Vec<(String, ListenInfo)>,
    Vec<(String, String)>,
))
    ensures
        kv_view(r.0@) == listen_items(sockets@, key_views(stable@), browser_pids@),
        kv_view(r.1@) == inbound_items(sockets@, sockets@, browser_pids@),
{
    let ghost ss = sockets@;
    let mut listeners: Vec<(String, ListenInfo)> = Vec::new();
    let mut inbound: Vec<(String, String)> = Vec::new();
    let mut i: usize = 0;
    assert(kv_view(listeners@) =~= Seq::<(Seq<char>, (bool, Seq<char>))>::empty());
    assert(kv_view(inbound@) =~= Seq::<(Seq<char>, Seq<char>)>::empty());
    while i < sockets.len()
        invariant
            i <= sockets.len(),
            ss == sockets@,
            kv_view(listeners@) == listen_items(ss.take(i as int), key_views(stable@), browser_pids@),
            kv_view(inbound@) == inbound_items(ss.take(i as int), ss, browser_pids@),
        decreases sockets.len() - i,
    {
        let s = &sockets[i];
        assert(ss.take(i + 1).drop_last() =~= ss.take(i as int));
        assert(ss.take(i + 1).last() == *s);
        let net = s.is_network();
        if net && (string_is(&s.state, "LISTEN") || (s.is_exposed() && key_listed(stable, &s.key()))) {
            let z = zone(s.local_addr.as_str());
            let exposed = z != Zone::Loopback;
            let desc = listen_desc_of(s, browser_pids);
            put(&mut listeners, s.key(), ListenInfo { exposed, desc });
        }
        if net && string_is(&s.state, "ESTAB") && zone(s.peer_addr.as_str()) == Zone::Lan && listens_on(
            sockets,
            &s.netid,
            &s.local_port,
        ) {
            let desc = inbound_desc_of(s, browser_pids);
            put(&mut inbound, s.key(), desc);
        }
        i = i + 1;
    }
    assert(ss.take(sockets.len() as int) =~= ss);
    (listeners, inbound)
}

// ---------------------------------------------------------------------------
// The diff
// ---------------------------------------------------------------------------

/// `LISTEN_NEW` for each current listener absent before (`HIGH` when exposed).
pub open spec fn new_listen_events(
    cur: Seq<(Seq<char>, (bool, Seq<char>))>,
    prev: Seq<(Seq<char>, (bool, Seq<char>))>,
) -> Seq<(Severity, Seq<char>, Seq<char>)>
    decreases cur.len(),
{
    if cur.len() == 0 {
        seq![]
    } else {
        let e = cur.last();
        new_listen_events(cur.drop_last(), prev) + if !has_key(prev, e.0) {
            seq![
                (if e.1.0 {
                    Severity::High
                } else {
                    Severity::Info
                }, "LISTEN_NEW"@, e.1.1),
            ]
        } else {
            seq![]
        }
    }
}

/// `LISTEN_GONE` for each earlier listener absent now.
pub open spec fn gone_listen_events(
    prev: Seq<(Seq<char>, (bool, Seq<char>))>,
    cur: Seq<(Seq<char>, (bool, Seq<char>))>,
) -> Seq<(Severity, Seq<char>, Seq<char>)>
    decreases prev.len(),
{
    if prev.len() == 0 {
        seq![]
    } else {
        let e = prev.last();
        gone_listen_events(prev.drop_last(), cur) + if !has_key(cur, e.0) {
            seq![(Severity::Info, "LISTEN_GONE"@, e.1.1)]
        } else {
            seq![]
        }
    }
}

/// An event of kind `kind` for each entry of `a` whose key is absent from `b`.
pub open spec fn diff_events(
    a: Seq<(Seq<char>, Seq<char>)>,
    b: Seq<(Seq<char>, Seq<char>)>,
    sev: Severity,
    kind: Seq<char>,
) -> Seq<(Severity, Seq<char>, Seq<char>)>
    decreases a.len(),
{
    if a.len() == 0 {
        seq![]
    } else {
        let e = a.last();
        diff_events(a.drop_last(), b, sev, kind) + if !has_key(b, e.0) {
            seq![(sev, kind, e.1)]
        } else {
            seq![]
        }
    }
}

pub open spec fn exposed_count(l: Seq<(Seq<char>, (bool, Seq<char>))>) -> nat
    decreases l.len(),
{
    if l.len() == 0 {
        0
    } else {
        exposed_count(l.drop_last()) + if l.last().1.0 {
            1nat
        } else {
            0nat
        }
    }
}

/// Description of the first look: the baseline.
pub open spec fn baseline_desc(listeners: nat, exposed: nat, inbound: nat) -> Seq<char> {
    "monitorando — base: "@ + dec(listeners) + " listeners ("@ + dec(exposed) + " expostos), "@
        + dec(inbound) + " entradas da LAN"@
}

/// The events of a look, given the previous one (`started`, `pl`, `pi`) and
/// the current listeners `l` and inbound connections `i`.
pub open spec fn look_events(
    started: bool,
    pl: Seq<(Seq<char>, (bool, Seq<char>))>,
    pi: Seq<(Seq<char>, Seq<char>)>,
    l: Seq<(Seq<char>, (bool, Seq<char>))>,
    i: Seq<(Seq<char>, Seq<char>)>,
) -> Seq<(Severity, Seq<char>, Seq<char>)> {
    if !started {
        seq![
            (Severity::Info, "SESSION_START"@, baseline_desc(
                l.len(),
                exposed_count(l),
                i.len(),
            )),
        ]
    } else {
        new_listen_events(l, pl) + gone_listen_events(pl, l) + diff_events(
            i,
            pi,
            Severity::High,
            "LAN_INBOUND"@,
        ) + diff_events(pi, i, Severity::Info, "LAN_INBOUND_END"@)
    }
}

/// What the log remembers between looks.
pub struct EventState {
    prev_listeners: Vec<(String, ListenInfo)>,
    prev_inbound: Vec<(String, String)>,
    started: bool,
}

fn push_event(out: &mut Vec<LogEvent>, severity: Severity, kind: &str, desc: &String)
    ensures
        events_view(final(out)@) == events_view(old(out)@).push((severity, kind@, desc@)),
{
    let mut k = String::new();
    k.append(kind);
    let ghost before = events_view(out@);
    out.push(LogEvent { severity, kind: k, desc: desc.clone() });
    assert(events_view(out@) =~= before.push((severity, kind@, desc@)));
}

impl EventState {
    pub closed spec fn started(&self) -> bool {
        self.started
    }

    pub closed spec fn listeners(&self) -> Seq<(Seq<char>, (bool, Seq<char>))> {
        kv_view(self.prev_listeners@)
    }

    pub closed spec fn inbound(&self) -> Seq<(Seq<char>, Seq<char>)> {
        kv_view(self.prev_inbound@)
    }

    pub fn new() -> (r: EventState)
        ensures
            !r.started(),
            r.listeners().len() == 0,
            r.inbound().len() == 0,
    {
        EventState { prev_listeners: Vec::new(), prev_inbound: Vec::new(), started: false }
    }

    /// A high-severity warning (such as a suspicious DNS server).
    pub fn warn(kind: &str, desc: &str) -> (e: LogEvent)
        ensures
            event_view(e) == (Severity::High, kind@, desc@),
    {
        let mut k = String::new();
        k.append(kind);
        let mut d = String::new();
        d.append(desc);
        LogEvent { severity: Severity::High, kind: k, desc: d }
    }

    /// Diffs the current sockets against the previous look and returns the
    /// events to log: listeners (and the exposures in `stable` that count,
    /// so that a UDP one is logged once it passed the debounce) and
    /// connections from the LAN that appeared or went away. The first look
    /// only records the baseline.
    pub fn record(&mut self, sockets: &[Socket], stable: &[String], browser_pids: &[u32]) -> (r: Vec<LogEvent>)
        ensures
            final(self).started(),
            final(self).listeners() == listen_items(sockets@, key_views(stable@), browser_pids@),
            final(self).inbound() == inbound_items(sockets@, sockets@, browser_pids@),
            events_view(r@) == look_events(
                old(self).started(),
                old(self).listeners(),
                old(self).inbound(),
                listen_items(sockets@, key_views(stable@), browser_pids@),
                inbound_items(sockets@, sockets@, browser_pids@),
            ),
    {
        let (listeners, inbound) = snapshot(sockets, stable, browser_pids);
        let ghost l = kv_view(listeners@);
        let ghost inb = kv_view(inbound@);
        let ghost pl = kv_view(self.prev_listeners@);
        let ghost pi = kv_view(self.prev_inbound@);
        let mut events: Vec<LogEvent> = Vec::new();
        if !self.started {
            let mut exposed: usize = 0;
            let mut k: usize = 0;
            while k < listeners.len()
                invariant
                    k <= listeners.len(),
                    l == kv_view(listeners@),
                    exposed == exposed_count(l.take(k as int)),
                    exposed <= k,
                decreases listeners.len() - k,
            {
                assert(l.take(k + 1).drop_last() =~= l.take(k as int));
                assert(l.take(k + 1).last().1.0 == listeners@[k as int].1.exposed);
                if listeners[k].1.exposed {
                    exposed = exposed + 1;
                }
                k = k + 1;
            }
            assert(l.take(listeners.len() as int) =~= l);
            let mut d = String::new();
            d.append("monitorando — base: ");
            push_dec(&mut d, listeners.len() as u64);
            d.append(" listeners (");
            push_dec(&mut d, exposed as u64);
            d.append(" expostos), ");
            push_dec(&mut d, inbound.len() as u64);
            d.append(" entradas da LAN");
            push_event(&mut events, Severity::Info, "SESSION_START", &d);
            assert(events_view(events@) =~= look_events(false, pl, pi, l, inb));
            self.prev_listeners = listeners;
            self.prev_inbound = inbound;
            self.started = true;
            return events;
        }
        // Listeners that appeared.
        let mut k: usize = 0;
        while k < listeners.len()
            invariant
                k <= listeners.len(),
                l == kv_view(listeners@),
                pl == kv_view(self.prev_listeners@),
                events_view(events@) == new_listen_events(l.take(k as int), pl),
            decreases listeners.len() - k,
        {
            assert(l.take(k + 1).drop_last() =~= l.take(k as int));
            assert(l.take(k + 1).last() == (listeners@[k as int].0@, listeners@[k as int].1@));
            let (key, info) = (&listeners[k].0, &listeners[k].1);
            if !contains_key(&self.prev_listeners, key) {
                let sev = if info.exposed {
                    Severity::High
                } else {
                    Severity::Info
                };
                push_event(&mut events, sev, "LISTEN_NEW", &info.desc);
            }
            k = k + 1;
        }
        assert(l.take(listeners.len() as int) =~= l);
        let ghost e1 = events_view(events@);
        // Listeners that went away.
        let mut k: usize = 0;
        while k < self.prev_listeners.len()
            invariant
                k <= self.prev_listeners.len(),
                l == kv_view(listeners@),
                pl == kv_view(self.prev_listeners@),
                events_view(events@) == e1 + gone_listen_events(pl.take(k as int), l),
            decreases self.prev_listeners.len() - k,
        {
            assert(pl.take(k + 1).drop_last() =~= pl.take(k as int));
            assert(pl.take(k + 1).last() == (
                self.prev_listeners@[k as int].0@,
                self.prev_listeners@[k as int].1@,
            ));
            if !contains_key(&listeners, &self.prev_listeners[k].0) {
                push_event(&mut events, Severity::Info, "LISTEN_GONE", &self.prev_listeners[k].1.desc);
            }
            proof {
                assert(events_view(events@) =~= e1 + gone_listen_events(pl.take(k + 1), l));
            }
            k = k + 1;
        }
        assert(pl.take(self.prev_listeners.len() as int) =~= pl);
        let ghost e2 = events_view(events@);
        // Connections that came in.
        let mut k: usize = 0;
        while k < inbound.len()
            invariant
                k <= inbound.len(),
                inb == kv_view(inbound@),
                pi == kv_view(self.prev_inbound@),
                events_view(events@) == e2 + diff_events(
                    inb.take(k as int),
                    pi,
                    Severity::High,
                    "LAN_INBOUND"@,
                ),
            decreases inbound.len() - k,
        {
            assert(inb.take(k + 1).drop_last() =~= inb.take(k as int));
            assert(inb.take(k + 1).last() == (inbound@[k as int].0@, inbound@[k as int].1@));
            if !contains_key(&self.prev_inbound, &inbound[k].0) {
                push_event(&mut events, Severity::High, "LAN_INBOUND", &inbound[k].1);
            }
            proof {
                assert(events_view(events@) =~= e2 + diff_events(
                    inb.take(k + 1),
                    pi,
                    Severity::High,
                    "LAN_INBOUND"@,
                ));
            }
            k = k + 1;
        }
        assert(inb.take(inbound.len() as int) =~= inb);
        let ghost e3 = events_view(events@);
        // Connections that ended.
        let mut k: usize = 0;
        while k < self.prev_inbound.len()
            invariant
                k <= self.prev_inbound.len(),
                inb == kv_view(inbound@),
                pi == kv_view(self.prev_inbound@),
                events_view(events@) == e3 + diff_events(
                    pi.take(k as int),
                    inb,
                    Severity::Info,
                    "LAN_INBOUND_END"@,
                ),
            decreases self.prev_inbound.len() - k,
        {
            assert(pi.take(k + 1).drop_last() =~= pi.take(k as int));
            assert(pi.take(k + 1).last() == (
                self.prev_inbound@[k as int].0@,
                self.prev_inbound@[k as int].1@,
            ));
            if !contains_key(&inbound, &self.prev_inbound[k].0) {
                push_event(&mut events, Severity::Info, "LAN_INBOUND_END", &self.prev_inbound[k].1);
            }
            proof {
                assert(events_view(events@) =~= e3 + diff_events(
                    pi.take(k + 1),
                    inb,
                    Severity::Info,
                    "LAN_INBOUND_END"@,
                ));
            }
            k = k + 1;
        }
        assert(pi.take(self.prev_inbound.len() as int) =~= pi);
        self.prev_listeners = listeners;
        self.prev_inbound = inbound;
        events
    }
}

} // verus!

verus! {

proof fn lemma_new_listen_self(cur: Seq<(Seq<char>, (bool, Seq<char>))>, prev: Seq<(Seq<char>, (bool, Seq<char>))>)
    requires
        forall|j: int| 0 <= j < cur.len() ==> has_key(prev, #[trigger] cur[j].0),
    ensures
        new_listen_events(cur, prev) == Seq::<(Severity, Seq<char>, Seq<char>)>::empty(),
    decreases cur.len(),
{
    if cur.len() > 0 {
        assert forall|j: int| 0 <= j < cur.drop_last().len() implies has_key(
            prev,
            #[trigger] cur.drop_last()[j].0,
        ) by {
            assert(cur.drop_last()[j] == cur[j]);
        }
        lemma_new_listen_self(cur.drop_last(), prev);
        assert(has_key(prev, cur[cur.len() - 1].0));
        assert(new_listen_events(cur, prev) =~= Seq::<(Severity, Seq<char>, Seq<char>)>::empty());
    }
}

proof fn lemma_gone_listen_self(prev: Seq<(Seq<char>, (bool, Seq<char>))>, cur: Seq<(Seq<char>, (bool, Seq<char>))>)
    requires
        forall|j: int| 0 <= j < prev.len() ==> has_key(cur, #[trigger] prev[j].0),
    ensures
        gone_listen_events(prev, cur) == Seq::<(Severity, Seq<char>, Seq<char>)>::empty(),
    decreases prev.len(),
{
    if prev.len() > 0 {
        assert forall|j: int| 0 <= j < prev.drop_last().len() implies has_key(
            cur,
            #[trigger] prev.drop_last()[j].0,
        ) by {
            assert(prev.drop_last()[j] == prev[j]);
        }
        lemma_gone_listen_self(prev.drop_last(), cur);
        assert(has_key(cur, prev[prev.len() - 1].0));
        assert(gone_listen_events(prev, cur) =~= Seq::<(Severity, Seq<char>, Seq<char>)>::empty());
    }
}

proof fn lemma_diff_self(a: Seq<(Seq<char>, Seq<char>)>, b: Seq<(Seq<char>, Seq<char>)>, sev: Severity, kind: Seq<char>)
    requires
        forall|j: int| 0 <= j < a.len() ==> has_key(b, #[trigger] a[j].0),
    ensures
        diff_events(a, b, sev, kind) == Seq::<(Severity, Seq<char>, Seq<char>)>::empty(),
    decreases a.len(),
{
    if a.len() > 0 {
        assert forall|j: int| 0 <= j < a.drop_last().len() implies has_key(
            b,
            #[trigger] a.drop_last()[j].0,
        ) by {
            assert(a.drop_last()[j] == a[j]);
        }
        lemma_diff_self(a.drop_last(), b, sev, kind);
        assert(has_key(b, a[a.len() - 1].0));
        assert(diff_events(a, b, sev, kind) =~= Seq::<(Severity, Seq<char>, Seq<char>)>::empty());
    }
}

/// Looking again at an unchanged listing logs nothing: after a look, a look
/// at the same sockets (with the same exposures that count and the same
/// browser descendants) yields no event.
pub proof fn law_unchanged_listing_is_silent(st: EventState, sockets: Seq<Socket>, stable: Seq<Seq<char>>, browser_pids: Seq<u32>)
    requires
        st.started(),
        st.listeners() == listen_items(sockets, stable, browser_pids),
        st.inbound() == inbound_items(sockets, sockets, browser_pids),
    ensures
        look_events(
            st.started(),
            st.listeners(),
            st.inbound(),
            listen_items(sockets, stable, browser_pids),
            inbound_items(sockets, sockets, browser_pids),
        ) == Seq::<(Severity, Seq<char>, Seq<char>)>::empty(),
{
    let l = listen_items(sockets, stable, browser_pids);
    let i = inbound_items(sockets, sockets, browser_pids);
    assert forall|j: int| 0 <= j < l.len() implies has_key(l, #[trigger] l[j].0) by {}
    assert forall|j: int| 0 <= j < i.len() implies has_key(i, #[trigger] i[j].0) by {}
    lemma_new_listen_self(l, l);
    lemma_gone_listen_self(l, l);
    lemma_diff_self(i, i, Severity::High, "LAN_INBOUND"@);
    lemma_diff_self(i, i, Severity::Info, "LAN_INBOUND_END"@);
    assert(look_events(true, l, i, l, i) =~= Seq::<(Severity, Seq<char>, Seq<char>)>::empty());
}

/// The first look logs the baseline only, as one informational
/// `SESSION_START`, however many listeners and connections there are.
pub proof fn law_first_look_is_baseline(
    l: Seq<(Seq<char>, (bool, Seq<char>))>,
    i: Seq<(Seq<char>, Seq<char>)>,
    pl: Seq<(Seq<char>, (bool, Seq<char>))>,
    pi: Seq<(Seq<char>, Seq<char>)>,
)
    ensures
        look_events(false, pl, pi, l, i).len() == 1,
        look_events(false, pl, pi, l, i)[0].0 == Severity::Info,
        look_events(false, pl, pi, l, i)[0].1 == "SESSION_START"@,
{
}

proof fn lemma_new_listen_has(cur: Seq<(Seq<char>, (bool, Seq<char>))>, prev: Seq<(Seq<char>, (bool, Seq<char>))>, j: int)
    requires
        0 <= j < cur.len(),
        !has_key(prev, cur[j].0),
    ensures
        new_listen_events(cur, prev).contains(
            (if cur[j].1.0 {
                Severity::High
            } else {
                Severity::Info
            }, "LISTEN_NEW"@, cur[j].1.1),
        ),
    decreases cur.len(),
{
    let e = (if cur[j].1.0 {
        Severity::High
    } else {
        Severity::Info
    }, "LISTEN_NEW"@, cur[j].1.1);
    let d = new_listen_events(cur.drop_last(), prev);
    if j == cur.len() - 1 {
        assert(new_listen_events(cur, prev)[d.len() as int] == e);
    } else {
        assert(cur.drop_last()[j] == cur[j]);
        lemma_new_listen_has(cur.drop_last(), prev, j);
        let w = choose|w: int| 0 <= w < d.len() && d[w] == e;
        assert(new_listen_events(cur, prev)[w] == e);
    }
}

proof fn lemma_diff_has(a: Seq<(Seq<char>, Seq<char>)>, b: Seq<(Seq<char>, Seq<char>)>, sev: Severity, kind: Seq<char>, j: int)
    requires
        0 <= j < a.len(),
        !has_key(b, a[j].0),
    ensures
        diff_events(a, b, sev, kind).contains((sev, kind, a[j].1)),
    decreases a.len(),
{
    let d = diff_events(a.drop_last(), b, sev, kind);
    if j == a.len() - 1 {
        assert(diff_events(a, b, sev, kind)[d.len() as int] == (sev, kind, a[j].1));
    } else {
        assert(a.drop_last()[j] == a[j]);
        lemma_diff_has(a.drop_last(), b, sev, kind, j);
        let w = choose|w: int| 0 <= w < d.len() && d[w] == (sev, kind, a[j].1);
        assert(diff_events(a, b, sev, kind)[w] == (sev, kind, a[j].1));
    }
}

/// After the first look, a listener that was not there before is logged as
/// `LISTEN_NEW`, with high severity when it is exposed to the network.
pub proof fn law_new_listener_logged(
    pl: Seq<(Seq<char>, (bool, Seq<char>))>,
    pi: Seq<(Seq<char>, Seq<char>)>,
    l: Seq<(Seq<char>, (bool, Seq<char>))>,
    i: Seq<(Seq<char>, Seq<char>)>,
    j: int,
)
    requires
        0 <= j < l.len(),
        !has_key(pl, l[j].0),
    ensures
        look_events(true, pl, pi, l, i).contains(
            (if l[j].1.0 {
                Severity::High
            } else {
                Severity::Info
            }, "LISTEN_NEW"@, l[j].1.1),
        ),
{
    let e = (if l[j].1.0 {
        Severity::High
    } else {
        Severity::Info
    }, "LISTEN_NEW"@, l[j].1.1);
    lemma_new_listen_has(l, pl, j);
    let a = new_listen_events(l, pl);
    let w = choose|w: int| 0 <= w < a.len() && a[w] == e;
    let rest = gone_listen_events(pl, l) + diff_events(i, pi, Severity::High, "LAN_INBOUND"@) + diff_events(
        pi,
        i,
        Severity::Info,
        "LAN_INBOUND_END"@,
    );
    assert(look_events(true, pl, pi, l, i) =~= a + rest);
    assert((a + rest)[w] == e);
}

/// After the first look, a connection from the LAN that was not there before
/// is logged as a high-severity `LAN_INBOUND`.
pub proof fn law_new_lan_inbound_alerts(
    pl: Seq<(Seq<char>, (bool, Seq<char>))>,
    pi: Seq<(Seq<char>, Seq<char>)>,
    l: Seq<(Seq<char>, (bool, Seq<char>))>,
    i: Seq<(Seq<char>, Seq<char>)>,
    j: int,
)
    requires
        0 <= j < i.len(),
        !has_key(pi, i[j].0),
    ensures
        look_events(true, pl, pi, l, i).contains((Severity::High, "LAN_INBOUND"@, i[j].1)),
{
    let e = (Severity::High, "LAN_INBOUND"@, i[j].1);
    lemma_diff_has(i, pi, Severity::High, "LAN_INBOUND"@, j);
    let front = new_listen_events(l, pl) + gone_listen_events(pl, l);
    let c = diff_events(i, pi, Severity::High, "LAN_INBOUND"@);
    let back = diff_events(pi, i, Severity::Info, "LAN_INBOUND_END"@);
    let w = choose|w: int| 0 <= w < c.len() && c[w] == e;
    assert(look_events(true, pl, pi, l, i) =~= front + c + back);
    assert((front + c + back)[front.len() + w] == e);
}

proof fn lemma_kv_put_keys<T>(s: Seq<(Seq<char>, T)>, k: Seq<char>, v: T)
    ensures
        forall|k2: Seq<char>| has_key(kv_put(s, k, v), k2) <==> (k2 == k || has_key(s, k2)),
        !has_key(s, k) ==> kv_put(s, k, v) == s.push((k, v)),
{
    crate::keyed::lemma_key_index(s, k);
    let t = kv_put(s, k, v);
    assert forall|k2: Seq<char>| has_key(t, k2) <==> (k2 == k || has_key(s, k2)) by {
        match key_index(s, k) {
            Some(i) => {
                if has_key(t, k2) {
                    let w = choose|w: int| 0 <= w < t.len() && (#[trigger] t[w]).0 == k2;
                    if w != i {
                        assert(s[w] == t[w]);
                    }
                }
                if has_key(s, k2) {
                    let w = choose|w: int| 0 <= w < s.len() && (#[trigger] s[w]).0 == k2;
                    if w != i {
                        assert(t[w] == s[w]);
                    } else {
                        assert(t[i].0 == k);
                    }
                }
                if k2 == k {
                    assert(t[i].0 == k);
                }
            },
            None => {
                if has_key(t, k2) {
                    let w = choose|w: int| 0 <= w < t.len() && (#[trigger] t[w]).0 == k2;
                    if w < s.len() {
                        assert(s[w] == t[w]);
                    }
                }
                if has_key(s, k2) {
                    let w = choose|w: int| 0 <= w < s.len() && (#[trigger] s[w]).0 == k2;
                    assert(t[w] == s[w]);
                }
                if k2 == k {
                    assert(t[s.len() as int].0 == k);
                }
            },
        }
    }
}

proof fn lemma_listen_keys(s: Seq<Socket>, st: Seq<Seq<char>>, bp: Seq<u32>, k: Seq<char>)
    ensures
        has_key(listen_items(s, st, bp), k) ==> exists|i: int| 0 <= i < s.len() && key_of(#[trigger] s[i]) == k,
    decreases s.len(),
{
    if s.len() > 0 {
        let d = s.drop_last();
        lemma_listen_keys(d, st, bp, k);
        let x = s.last();
        lemma_kv_put_keys(
            listen_items(d, st, bp),
            key_of(x),
            (crate::analysis::is_exposed_zone(zone_of(x.local_addr@)), listen_desc(x, bp)),
        );
        if has_key(listen_items(s, st, bp), k) {
            if has_key(listen_items(d, st, bp), k) {
                let i = choose|i: int| 0 <= i < d.len() && key_of(#[trigger] d[i]) == k;
                assert(s[i] == d[i]);
            } else {
                assert(key_of(s[s.len() - 1]) == k);
            }
        }
    }
}

proof fn lemma_inbound_keys(s: Seq<Socket>, all: Seq<Socket>, bp: Seq<u32>, k: Seq<char>)
    ensures
        has_key(inbound_items(s, all, bp), k) ==> exists|i: int| 0 <= i < s.len() && key_of(#[trigger] s[i]) == k,
    decreases s.len(),
{
    if s.len() > 0 {
        let d = s.drop_last();
        lemma_inbound_keys(d, all, bp, k);
        let x = s.last();
        lemma_kv_put_keys(inbound_items(d, all, bp), key_of(x), inbound_desc(x, bp));
        if has_key(inbound_items(s, all, bp), k) {
            if has_key(inbound_items(d, all, bp), k) {
                let i = choose|i: int| 0 <= i < d.len() && key_of(#[trigger] d[i]) == k;
                assert(s[i] == d[i]);
            } else {
                assert(key_of(s[s.len() - 1]) == k);
            }
        }
    }
}

proof fn lemma_snapshot_counts(s: Seq<Socket>, all: Seq<Socket>, bp: Seq<u32>)
    requires
        forall|i: int, j: int| 0 <= i < j < s.len() ==> key_of(#[trigger] s[i]) != key_of(#[trigger] s[j]),
        forall|i: int| 0 <= i < s.len() ==> crate::socket::network(#[trigger] s[i]),
    ensures
        listen_items(s, seq![], bp).len() == crate::socket::count(s, |x: Socket| x.state@ == "LISTEN"@),
        exposed_count(listen_items(s, seq![], bp)) == crate::socket::count(
            s,
            |x: Socket| crate::socket::listening_exposed(x),
        ),
        inbound_items(s, all, bp).len() == crate::socket::count(
            s,
            |x: Socket| crate::socket::inbound_from_lan(all, x),
        ),
    decreases s.len(),
{
    if s.len() > 0 {
        let d = s.drop_last();
        let x = s.last();
        assert forall|i: int, j: int| 0 <= i < j < d.len() implies key_of(#[trigger] d[i]) != key_of(#[trigger] d[j]) by {
            assert(d[i] == s[i] && d[j] == s[j]);
        }
        assert forall|i: int| 0 <= i < d.len() implies crate::socket::network(#[trigger] d[i]) by {
            assert(d[i] == s[i]);
        }
        lemma_snapshot_counts(d, all, bp);
        assert(crate::socket::network(s[s.len() - 1]));
        let e: Seq<Seq<char>> = seq![];
        let l0 = listen_items(d, e, bp);
        let i0 = inbound_items(d, all, bp);
        lemma_listen_keys(d, e, bp, key_of(x));
        lemma_inbound_keys(d, all, bp, key_of(x));
        if has_key(l0, key_of(x)) {
            let i = choose|i: int| 0 <= i < d.len() && key_of(#[trigger] d[i]) == key_of(x);
            assert(s[i] == d[i]);
            assert(false);
        }
        if has_key(i0, key_of(x)) {
            let i = choose|i: int| 0 <= i < d.len() && key_of(#[trigger] d[i]) == key_of(x);
            assert(s[i] == d[i]);
            assert(false);
        }
        let lv = (crate::analysis::is_exposed_zone(zone_of(x.local_addr@)), listen_desc(x, bp));
        lemma_kv_put_keys(l0, key_of(x), lv);
        lemma_kv_put_keys(i0, key_of(x), inbound_desc(x, bp));
        if logged_listener(x, e) {
            assert(listen_items(s, e, bp) == l0.push((key_of(x), lv)));
            assert(l0.push((key_of(x), lv)).drop_last() =~= l0);
        }
    }
}

/// The log's snapshot and the summary count the same things: on a listing
/// of network sockets with distinct keys (and no exposure counted yet), the
/// snapshot has as many listeners, exposed listeners and connections from
/// the LAN as the summary counts.
pub proof fn law_snapshot_agrees_with_summary(ss: Seq<Socket>, bp: Seq<u32>, r: crate::socket::Summary)
    requires
        r.describes(ss),
        forall|i: int, j: int| 0 <= i < j < ss.len() ==> key_of(#[trigger] ss[i]) != key_of(#[trigger] ss[j]),
        forall|i: int| 0 <= i < ss.len() ==> crate::socket::network(#[trigger] ss[i]),
    ensures
        listen_items(ss, seq![], bp).len() == r.listen,
        exposed_count(listen_items(ss, seq![], bp)) == r.exposed,
        inbound_items(ss, ss, bp).len() == r.inbound_lan,
{
    lemma_snapshot_counts(ss, ss, bp);
}

/// The `LISTEN_NEW` event of a listener.
pub open spec fn listen_new_event(e: (Seq<char>, (bool, Seq<char>))) -> (Severity, Seq<char>, Seq<char>) {
    (if e.1.0 {
        Severity::High
    } else {
        Severity::Info
    }, "LISTEN_NEW"@, e.1.1)
}

/// The `LISTEN_GONE` event of a listener.
pub open spec fn listen_gone_event(e: (Seq<char>, (bool, Seq<char>))) -> (Severity, Seq<char>, Seq<char>) {
    (Severity::Info, "LISTEN_GONE"@, e.1.1)
}

proof fn lemma_new_listen_filter(cur: Seq<(Seq<char>, (bool, Seq<char>))>, prev: Seq<(Seq<char>, (bool, Seq<char>))>)
    ensures
        new_listen_events(cur, prev) == cur.filter(|e: (Seq<char>, (bool, Seq<char>))| !has_key(prev, e.0)).map_values(
            |e: (Seq<char>, (bool, Seq<char>))| listen_new_event(e),
        ),
    decreases cur.len(),
{
    reveal(Seq::filter);
    let p = |e: (Seq<char>, (bool, Seq<char>))| !has_key(prev, e.0);
    let f = |e: (Seq<char>, (bool, Seq<char>))| listen_new_event(e);
    if cur.len() == 0 {
        assert(cur.filter(p).map_values(f) =~= Seq::<(Severity, Seq<char>, Seq<char>)>::empty());
    } else {
        lemma_new_listen_filter(cur.drop_last(), prev);
        let sub = cur.drop_last().filter(p);
        if p(cur.last()) {
            assert(sub.push(cur.last()).map_values(f) =~= sub.map_values(f).push(f(cur.last())));
            assert(new_listen_events(cur, prev) =~= sub.map_values(f) + seq![f(cur.last())]);
        } else {
            assert(new_listen_events(cur, prev) =~= sub.map_values(f));
        }
    }
}

proof fn lemma_gone_listen_filter(prev: Seq<(Seq<char>, (bool, Seq<char>))>, cur: Seq<(Seq<char>, (bool, Seq<char>))>)
    ensures
        gone_listen_events(prev, cur) == prev.filter(|e: (Seq<char>, (bool, Seq<char>))| !has_key(cur, e.0)).map_values(
            |e: (Seq<char>, (bool, Seq<char>))| listen_gone_event(e),
        ),
    decreases prev.len(),
{
    reveal(Seq::filter);
    let p = |e: (Seq<char>, (bool, Seq<char>))| !has_key(cur, e.0);
    let f = |e: (Seq<char>, (bool, Seq<char>))| listen_gone_event(e);
    if prev.len() == 0 {
        assert(prev.filter(p).map_values(f) =~= Seq::<(Severity, Seq<char>, Seq<char>)>::empty());
    } else {
        lemma_gone_listen_filter(prev.drop_last(), cur);
        let sub = prev.drop_last().filter(p);
        if p(prev.last()) {
            assert(sub.push(prev.last()).map_values(f) =~= sub.map_values(f).push(f(prev.last())));
            assert(gone_listen_events(prev, cur) =~= sub.map_values(f) + seq![f(prev.last())]);
        } else {
            assert(gone_listen_events(prev, cur) =~= sub.map_values(f));
        }
    }
}

proof fn lemma_diff_filter(a: Seq<(Seq<char>, Seq<char>)>, b: Seq<(Seq<char>, Seq<char>)>, sev: Severity, kind: Seq<char>)
    ensures
        diff_events(a, b, sev, kind) == a.filter(|e: (Seq<char>, Seq<char>)| !has_key(b, e.0)).map_values(
            |e: (Seq<char>, Seq<char>)| (sev, kind, e.1),
        ),
    decreases a.len(),
{
    reveal(Seq::filter);
    let p = |e: (Seq<char>, Seq<char>)| !has_key(b, e.0);
    let f = |e: (Seq<char>, Seq<char>)| (sev, kind, e.1);
    if a.len() == 0 {
        assert(a.filter(p).map_values(f) =~= Seq::<(Severity, Seq<char>, Seq<char>)>::empty());
    } else {
        lemma_diff_filter(a.drop_last(), b, sev, kind);
        let sub = a.drop_last().filter(p);
        if p(a.last()) {
            assert(sub.push(a.last()).map_values(f) =~= sub.map_values(f).push(f(a.last())));
            assert(diff_events(a, b, sev, kind) =~= sub.map_values(f) + seq![f(a.last())]);
        } else {
            assert(diff_events(a, b, sev, kind) =~= sub.map_values(f));
        }
    }
}

/// Between two looks (the previous listeners `pl` and connections from the
/// LAN `pi`, the current `l` and `i`), the log gets exactly: a `LISTEN_NEW`
/// for each current listener whose key is new (`HIGH` when exposed, else
/// `INFO`), an `INFO` `LISTEN_GONE` for each earlier listener whose key is
/// gone, a `HIGH` `LAN_INBOUND` for each new connection from the LAN and an
/// `INFO` `LAN_INBOUND_END` for each one gone, and nothing else; each in the
/// order of its table.
pub proof fn law_two_looks(
    pl: Seq<(Seq<char>, (bool, Seq<char>))>,
    pi: Seq<(Seq<char>, Seq<char>)>,
    l: Seq<(Seq<char>, (bool, Seq<char>))>,
    i: Seq<(Seq<char>, Seq<char>)>,
)
    ensures
        look_events(true, pl, pi, l, i) == l.filter(|e: (Seq<char>, (bool, Seq<char>))| !has_key(pl, e.0)).map_values(
            |e: (Seq<char>, (bool, Seq<char>))| listen_new_event(e),
        ) + pl.filter(|e: (Seq<char>, (bool, Seq<char>))| !has_key(l, e.0)).map_values(
            |e: (Seq<char>, (bool, Seq<char>))| listen_gone_event(e),
        ) + i.filter(|e: (Seq<char>, Seq<char>)| !has_key(pi, e.0)).map_values(
            |e: (Seq<char>, Seq<char>)| (Severity::High, "LAN_INBOUND"@, e.1),
        ) + pi.filter(|e: (Seq<char>, Seq<char>)| !has_key(i, e.0)).map_values(
            |e: (Seq<char>, Seq<char>)| (Severity::Info, "LAN_INBOUND_END"@, e.1),
        ),
{
    lemma_new_listen_filter(l, pl);
    lemma_gone_listen_filter(pl, l);
    lemma_diff_filter(i, pi, Severity::High, "LAN_INBOUND"@);
    lemma_diff_filter(pi, i, Severity::Info, "LAN_INBOUND_END"@);
}

/// The titles of the notifications: a new exposed service, a connection
/// coming in from the LAN, a suspicious DNS server, an unprotected firewall;
/// and the tags of the severities.
pub proof fn law_titles_and_tags()
    ensures
        notif_title_spec("LISTEN_NEW"@) == "🛡 Novo serviço escutando exposto"@,
        notif_title_spec("LAN_INBOUND"@) == "🛡 Conexão entrando da rede local"@,
        notif_title_spec("DNS_SUSPECT"@) == "🛡 DNS suspeito na rede"@,
        notif_title_spec("FIREWALL"@) == "🛡 Firewall desprotegido"@,
        severity_tag(Severity::High) == "HIGH"@,
        severity_tag(Severity::Info) == "INFO"@,
{
    reveal_strlit("LISTEN_NEW");
    reveal_strlit("LAN_INBOUND");
    reveal_strlit("DNS_SUSPECT");
    reveal_strlit("FIREWALL");
    assert("LAN_INBOUND"@.len() != "LISTEN_NEW"@.len());
    assert("DNS_SUSPECT"@.len() != "LISTEN_NEW"@.len());
    assert("DNS_SUSPECT"@[0] != "LAN_INBOUND"@[0]);
    assert("FIREWALL"@.len() != "LISTEN_NEW"@.len());
    assert("FIREWALL"@.len() != "LAN_INBOUND"@.len());
    assert("FIREWALL"@.len() != "DNS_SUSPECT"@.len());
}

} // verus!
