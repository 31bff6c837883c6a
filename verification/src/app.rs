//! Application state: protocol filter, text filter, ordering, selection and
//! what a refresh changes. Collecting sockets, reading `/proc`, the log and
//! the terminal are the application's; they hand their results in here.
use crate::socket::{local_of, peer_of, Socket, Summary};
use crate::keyed::put;
use crate::text::{
    chars_of, chars_of_string, contains, dec, lex_less, lex_lt, parse_u32, parse_u32_of,
    starts_with, starts_with_lit, string_is, text_le, lemma_lex_irrefl, lemma_lex_lt_text_le,
};
use vstd::prelude::*;

verus! {

// ---------------------------------------------------------------------------
// Protocol filter and ordering
// ---------------------------------------------------------------------------

#[derive(Debug, Clone, Copy, PartialEq, Eq, Structural)]
pub enum Proto {
    /// Network (TCP+UDP), the default; UNIX sockets stay out so as not to flood.
    Net,
    Tcp,
    Udp,
    Unix,
}

pub open spec fn proto_label(p: Proto) -> Seq<char> {
    match p {
        Proto::Net => "rede"@,
        Proto::Tcp => "tcp"@,
        Proto::Udp => "udp"@,
        Proto::Unix => "unix"@,
    }
}

pub open spec fn proto_next(p: Proto) -> Proto {
    match p {
        Proto::Net => Proto::Tcp,
        Proto::Tcp => Proto::Udp,
        Proto::Udp => Proto::Unix,
        Proto::Unix => Proto::Net,
    }
}

/// The socket passes this protocol filter.
pub open spec fn proto_matches(p: Proto, netid: Seq<char>) -> bool {
    match p {
        Proto::Net => netid == "tcp"@ || netid == "udp"@,
        Proto::Tcp => netid == "tcp"@,
        Proto::Udp => netid == "udp"@,
        Proto::Unix => starts_with(netid, "u_"@),
    }
}

impl Proto {
    pub fn label(&self) -> (r: &'static str)
        ensures
            r@ == proto_label(*self),
    {
        match self {
            Proto::Net => "rede",
            Proto::Tcp => "tcp",
            Proto::Udp => "udp",
            Proto::Unix => "unix",
        }
    }

    pub fn next(self) -> (r: Proto)
        ensures
            r == proto_next(self),
    {
        match self {
            Proto::Net => Proto::Tcp,
            Proto::Tcp => Proto::Udp,
            Proto::Udp => Proto::Unix,
            Proto::Unix => Proto::Net,
        }
    }

    /// Whether a socket with this `netid` passes the protocol filter.
    pub fn matches(self, netid: &str) -> (r: bool)
        ensures
            r == proto_matches(self, netid@),
    {
        let n = chars_of(netid);
        match self {
            Proto::Net => crate::text::is_lit(&n, "tcp") || crate::text::is_lit(&n, "udp"),
            Proto::Tcp => crate::text::is_lit(&n, "tcp"),
            Proto::Udp => crate::text::is_lit(&n, "udp"),
            Proto::Unix => starts_with_lit(&n, "u_"),
        }
    }
}

#[derive(Debug, Clone, Copy, PartialEq, Eq, Structural)]
pub enum SortKey {
    State,
    Local,
    Peer,
    Process,
    RecvQ,
    SendQ,
}

pub open spec fn sort_label(k: SortKey) -> Seq<char> {
    match k {
        SortKey::State => "estado"@,
        SortKey::Local => "local"@,
        SortKey::Peer => "remoto"@,
        SortKey::Process => "processo"@,
        SortKey::RecvQ => "recv-q"@,
        SortKey::SendQ => "send-q"@,
    }
}

pub open spec fn sort_next(k: SortKey) -> SortKey {
    match k {
        SortKey::State => SortKey::Local,
        SortKey::Local => SortKey::Peer,
        SortKey::Peer => SortKey::Process,
        SortKey::Process => SortKey::RecvQ,
        SortKey::RecvQ => SortKey::SendQ,
        SortKey::SendQ => SortKey::State,
    }
}

impl SortKey {
    pub fn label(&self) -> (r: &'static str)
        ensures
            r@ == sort_label(*self),
    {
        match self {
            SortKey::State => "estado",
            SortKey::Local => "local",
            SortKey::Peer => "remoto",
            SortKey::Process => "processo",
            SortKey::RecvQ => "recv-q",
            SortKey::SendQ => "send-q",
        }
    }

    pub fn next(self) -> (r: SortKey)
        ensures
            r == sort_next(self),
    {
        match self {
            SortKey::State => SortKey::Local,
            SortKey::Local => SortKey::Peer,
            SortKey::Peer => SortKey::Process,
            SortKey::Process => SortKey::RecvQ,
            SortKey::RecvQ => SortKey::SendQ,
            SortKey::SendQ => SortKey::State,
        }
    }
}

/// Ports in numeric order; a port that is not a number (rare with `-n`) goes last.
pub open spec fn port_rank(p: Seq<char>) -> u32 {
    match parse_u32(p) {
        Some(v) => v,
        None => u32::MAX,
    }
}

pub fn port_num(p: &str) -> (r: u32)
    ensures
        r == port_rank(p@),
{
    match parse_u32_of(&chars_of(p)) {
        Some(v) => v,
        None => 0xffff_ffff,
    }
}

/// `a` goes strictly before `b` by the key (queues: larger first).
pub open spec fn key_lt(k: SortKey, a: Socket, b: Socket) -> bool {
    match k {
        SortKey::State => lex_lt(a.state@, b.state@),
        SortKey::Local => port_rank(a.local_port@) < port_rank(b.local_port@),
        SortKey::Peer => lex_lt(a.peer_addr@, b.peer_addr@),
        SortKey::Process => lex_lt(a.process@, b.process@),
        SortKey::RecvQ => a.recv_q > b.recv_q,
        SortKey::SendQ => a.send_q > b.send_q,
    }
}

/// `a` and `b` tie by the key.
pub open spec fn key_eq(k: SortKey, a: Socket, b: Socket) -> bool {
    match k {
        SortKey::State => a.state@ == b.state@,
        SortKey::Local => port_rank(a.local_port@) == port_rank(b.local_port@),
        SortKey::Peer => a.peer_addr@ == b.peer_addr@,
        SortKey::Process => a.process@ == b.process@,
        SortKey::RecvQ => a.recv_q == b.recv_q,
        SortKey::SendQ => a.send_q == b.send_q,
    }
}

/// Socket `i` is listed before socket `j`: by the key, ties in listing order
/// (the sort is stable).
pub open spec fn listed_before(k: SortKey, ss: Seq<Socket>, i: int, j: int) -> bool {
    key_lt(k, ss[i], ss[j]) || (key_eq(k, ss[i], ss[j]) && i < j)
}

proof fn lemma_key_order(k: SortKey, a: Socket, b: Socket, c: Socket)
    ensures
        !key_lt(k, a, a),
        key_eq(k, a, a),
        key_lt(k, a, b) ==> !key_lt(k, b, a) && !key_eq(k, a, b),
        key_eq(k, a, b) ==> key_eq(k, b, a),
        key_lt(k, a, b) || key_lt(k, b, a) || key_eq(k, a, b),
        key_lt(k, a, b) && key_lt(k, b, c) ==> key_lt(k, a, c),
        key_lt(k, a, b) && key_eq(k, b, c) ==> key_lt(k, a, c),
        key_eq(k, a, b) && key_lt(k, b, c) ==> key_lt(k, a, c),
        key_eq(k, a, b) && key_eq(k, b, c) ==> key_eq(k, a, c),
{
    match k {
        SortKey::State => {
            crate::text::lemma_lex_irrefl(a.state@);
            crate::text::lemma_lex_total(a.state@, b.state@);
            if lex_lt(a.state@, b.state@) && lex_lt(b.state@, c.state@) {
                crate::text::lemma_lex_trans(a.state@, b.state@, c.state@);
            }
        },
        SortKey::Peer => {
            crate::text::lemma_lex_irrefl(a.peer_addr@);
            crate::text::lemma_lex_total(a.peer_addr@, b.peer_addr@);
            if lex_lt(a.peer_addr@, b.peer_addr@) && lex_lt(b.peer_addr@, c.peer_addr@) {
                crate::text::lemma_lex_trans(a.peer_addr@, b.peer_addr@, c.peer_addr@);
            }
        },
        SortKey::Process => {
            crate::text::lemma_lex_irrefl(a.process@);
            crate::text::lemma_lex_total(a.process@, b.process@);
            if lex_lt(a.process@, b.process@) && lex_lt(b.process@, c.process@) {
                crate::text::lemma_lex_trans(a.process@, b.process@, c.process@);
            }
        },
        _ => {},
    }
}

/// `listed_before` is a strict total order on the positions of a listing.
pub proof fn lemma_listed_before(k: SortKey, ss: Seq<Socket>, i: int, j: int, l: int)
    requires
        0 <= i < ss.len(),
        0 <= j < ss.len(),
        0 <= l < ss.len(),
    ensures
        !listed_before(k, ss, i, i),
        i != j ==> (listed_before(k, ss, i, j) <==> !listed_before(k, ss, j, i)),
        listed_before(k, ss, i, j) && listed_before(k, ss, j, l) ==> listed_before(k, ss, i, l),
{
    lemma_key_order(k, ss[i], ss[j], ss[l]);
    lemma_key_order(k, ss[j], ss[i], ss[l]);
    lemma_key_order(k, ss[j], ss[l], ss[i]);
    lemma_key_order(k, ss[i], ss[l], ss[j]);
}

fn key_lt_exec(k: SortKey, a: &Socket, b: &Socket) -> (r: bool)
    ensures
        r == key_lt(k, *a, *b),
{
    match k {
        SortKey::State => lex_less(&chars_of_string(&a.state), &chars_of_string(&b.state)),
        SortKey::Local => port_num(a.local_port.as_str()) < port_num(b.local_port.as_str()),
        SortKey::Peer => lex_less(&chars_of_string(&a.peer_addr), &chars_of_string(&b.peer_addr)),
        SortKey::Process => lex_less(&chars_of_string(&a.process), &chars_of_string(&b.process)),
        SortKey::RecvQ => a.recv_q > b.recv_q,
        SortKey::SendQ => a.send_q > b.send_q,
    }
}

fn key_eq_exec(k: SortKey, a: &Socket, b: &Socket) -> (r: bool)
    ensures
        r == key_eq(k, *a, *b),
{
    match k {
        SortKey::State => a.state == b.state,
        SortKey::Local => port_num(a.local_port.as_str()) == port_num(b.local_port.as_str()),
        SortKey::Peer => a.peer_addr == b.peer_addr,
        SortKey::Process => a.process == b.process,
        SortKey::RecvQ => a.recv_q == b.recv_q,
        SortKey::SendQ => a.send_q == b.send_q,
    }
}

// ---------------------------------------------------------------------------
// Text filter
// ---------------------------------------------------------------------------

/// What `str::to_lowercase` (Unicode lower case) makes of a string.
pub uninterp spec fn lowercase(s: Seq<char>) -> Seq<char>;

/// Unicode lower case (std's `str::to_lowercase`).
#[verifier::external_body]
fn to_lowercase(s: &str) -> (r: String)
    ensures
        r@ == lowercase(s@),
{
    s.to_lowercase()
}

/// Decimal PID, or nothing.
pub open spec fn pid_text(p: Option<u32>) -> Seq<char> {
    match p {
        Some(v) => dec(v as nat),
        None => seq![],
    }
}

/// The socket matches the (lower-cased) filter text: in its local or remote
/// address, its process, its state or its PID.
pub open spec fn text_matches(needle: Seq<char>, s: Socket) -> bool {
    ||| needle.len() == 0
    ||| contains(lowercase(local_of(s)), needle)
    ||| contains(lowercase(peer_of(s)), needle)
    ||| contains(lowercase(s.process@), needle)
    ||| contains(lowercase(s.state@), needle)
    ||| contains(pid_text(s.pid), needle)
}

fn text_matches_exec(needle: &Vec<char>, s: &Socket) -> (r: bool)
    ensures
        r == text_matches(needle@, *s),
{
    if needle.len() == 0 {
        return true;
    }
    let l = to_lowercase(s.local().as_str());
    if crate::text::contains_seq(&chars_of_string(&l), needle) {
        return true;
    }
    let p = to_lowercase(s.peer().as_str());
    if crate::text::contains_seq(&chars_of_string(&p), needle) {
        return true;
    }
    let pr = to_lowercase(s.process.as_str());
    if crate::text::contains_seq(&chars_of_string(&pr), needle) {
        return true;
    }
    let st = to_lowercase(s.state.as_str());
    if crate::text::contains_seq(&chars_of_string(&st), needle) {
        return true;
    }
    let pid = match s.pid {
        Some(v) => crate::text::dec_chars(v as u64),
        None => Vec::new(),
    };
    assert(pid@ =~= pid_text(s.pid));
    crate::text::contains_seq(&pid, needle)
}

} // verus!

verus! {

// ---------------------------------------------------------------------------
// The state
// ---------------------------------------------------------------------------

pub struct App {
    pub sockets: Vec<Socket>,
    pub summary: Summary,
    pub proto: Proto,
    pub sort: SortKey,
    pub filter: String,
    pub filter_mode: bool,
    pub selected: usize,
    pub paused: bool,
    pub is_root: bool,
    /// Refresh interval and time of the last refresh, in milliseconds.
    pub interval_ms: u64,
    pub last_refresh_ms: u64,
    pub last_error: Option<String>,
    /// Keys seen at the last refresh, to mark new connections.
    pub seen_keys: Vec<String>,
    /// When each new connection was detected (to expire its highlight).
    pub new_at: Vec<(String, u64)>,
    /// Per PID: name of the browser among its ancestors, if any.
    pub browser: Vec<(u32, Option<String>)>,
    /// When each exposed socket was first seen (debounce of UDP).
    pub exposed_since: Vec<(String, u64)>,
    /// Whether a first successful refresh has set the baseline: it marks
    /// nothing as new, and what is exposed then counts at once.
    pub baselined: bool,
    /// Keys of the exposed sockets that count as exposed (TCP at once, UDP
    /// after the debounce).
    pub stable: Vec<String>,
    /// Inspection panel of the selected process open?
    pub inspector: bool,
    pub should_quit: bool,
}

/// Socket `i` passes the protocol filter and the text filter.
pub open spec fn shown(app: App, i: int) -> bool {
    proto_matches(app.proto, app.sockets@[i].netid@) && text_matches(
        lowercase(app.filter@),
        app.sockets@[i],
    )
}

/// Number of sockets among the first `n` that are shown.
pub open spec fn count_shown(app: App, n: int) -> nat
    decreases n,
{
    if n <= 0 {
        0
    } else {
        count_shown(app, n - 1) + if shown(app, n - 1) {
            1nat
        } else {
            0nat
        }
    }
}

/// Number of sockets on screen.
pub open spec fn visible_count(app: App) -> nat {
    count_shown(app, app.sockets@.len() as int)
}

/// `r` lists the positions of the shown sockets, each once, in display order:
/// by the sort key, ties in listing order.
pub open spec fn is_listing(app: App, r: Seq<usize>) -> bool {
    &&& r.len() == visible_count(app)
    &&& forall|k: int| 0 <= k < r.len() ==> #[trigger] r[k] < app.sockets@.len() && shown(app, r[k] as int)
    &&& forall|i: int| 0 <= i < app.sockets@.len() && shown(app, i) ==> r.contains(i as usize)
    &&& forall|a: int, b: int| 0 <= a < b < r.len() ==> listed_before(app.sort, app.sockets@, #[trigger] r[a] as int, #[trigger] r[b] as int)
}

/// Selection after moving one row down (stays on the last row).
pub open spec fn down_sel(a: App) -> usize {
    if a.selected + 1 < visible_count(a) {
        (a.selected + 1) as usize
    } else {
        a.selected
    }
}

/// Selection after moving one row up (stays on the first row).
pub open spec fn up_sel(a: App) -> usize {
    if a.selected > 0 {
        (a.selected - 1) as usize
    } else {
        0
    }
}

proof fn lemma_count_shown_le(app: App, n: int)
    ensures
        count_shown(app, n) <= if n < 0 { 0 } else { n },
    decreases n,
{
    if n > 0 {
        lemma_count_shown_le(app, n - 1);
    }
}

impl App {
    pub fn new(interval_ms: u64, is_root: bool) -> (r: App)
        ensures
            r.sockets@.len() == 0,
            r.proto == Proto::Net,
            r.sort == SortKey::State,
            r.filter@.len() == 0,
            !r.filter_mode,
            r.selected == 0,
            !r.paused,
            r.is_root == is_root,
            r.interval_ms == interval_ms,
            r.last_error is None,
            r.seen_keys@.len() == 0,
            r.new_at@.len() == 0,
            r.browser@.len() == 0,
            r.exposed_since@.len() == 0,
            !r.baselined,
            r.stable@.len() == 0,
            r.last_refresh_ms == 0,
            r.summary.total == 0 && r.summary.tcp == 0 && r.summary.udp == 0 && r.summary.estab == 0,
            r.summary.listen == 0 && r.summary.time_wait == 0 && r.summary.exposed == 0 && r.summary.inbound_lan == 0,
            !r.inspector,
            !r.should_quit,
    {
        App {
            sockets: Vec::new(),
            summary: Summary {
                total: 0,
                tcp: 0,
                udp: 0,
                estab: 0,
                listen: 0,
                time_wait: 0,
                exposed: 0,
                inbound_lan: 0,
            },
            proto: Proto::Net,
            sort: SortKey::State,
            filter: String::new(),
            filter_mode: false,
            selected: 0,
            paused: false,
            is_root,
            interval_ms,
            last_refresh_ms: 0,
            last_error: None,
            seen_keys: Vec::new(),
            new_at: Vec::new(),
            browser: Vec::new(),
            exposed_since: Vec::new(),
            baselined: false,
            stable: Vec::new(),
            inspector: false,
            should_quit: false,
        }
    }

    fn before_exec(&self, i: usize, j: usize) -> (r: bool)
        requires
            i < self.sockets.len(),
            j < self.sockets.len(),
        ensures
            r == listed_before(self.sort, self.sockets@, i as int, j as int),
    {
        let a = &self.sockets[i];
        let b = &self.sockets[j];
        key_lt_exec(self.sort, a, b) || (key_eq_exec(self.sort, a, b) && i < j)
    }

    /// Positions of the sockets on screen, filtered and in display order.
    pub fn visible_indices(&self) -> (r: Vec<usize>)
        ensures
            is_listing(*self, r@),
    {
        let ghost app = *self;
        let f = to_lowercase(self.filter.as_str());
        let needle = chars_of_string(&f);
        let mut r: Vec<usize> = Vec::new();
        let mut i: usize = 0;
        while i < self.sockets.len()
            invariant
                app == *self,
                i <= self.sockets.len(),
                needle@ == lowercase(self.filter@),
                r.len() == count_shown(app, i as int),
                forall|k: int| 0 <= k < r.len() ==> #[trigger] r@[k] < i && shown(app, r@[k] as int),
                forall|x: int| 0 <= x < i && shown(app, x) ==> r@.contains(x as usize),
                forall|a: int, b: int|
                    0 <= a < b < r.len() ==> listed_before(
                        app.sort,
                        app.sockets@,
                        #[trigger] r@[a] as int,
                        #[trigger] r@[b] as int,
                    ),
            decreases self.sockets.len() - i,
        {
            let s = &self.sockets[i];
            if s.proto_ok(self.proto) && text_matches_exec(&needle, s) {
                let mut p: usize = 0;
                while p < r.len() && !self.before_exec(i, r[p])
                    invariant
                        app == *self,
                        i < self.sockets.len(),
                        p <= r.len(),
                        forall|k: int| 0 <= k < r.len() ==> #[trigger] r@[k] < i,
                        forall|q: int| 0 <= q < p ==> !listed_before(app.sort, app.sockets@, i as int, #[trigger] r@[q] as int),
                    decreases r.len() - p,
                {
                    p = p + 1;
                }
                let ghost old_r = r@;
                proof {
                    assert forall|q: int| 0 <= q < p implies listed_before(app.sort, app.sockets@, #[trigger] old_r[q] as int, i as int) by {
                        lemma_listed_before(app.sort, app.sockets@, old_r[q] as int, i as int, i as int);
                    }
                    if p < old_r.len() {
                        assert forall|q: int| p <= q < old_r.len() implies listed_before(app.sort, app.sockets@, i as int, #[trigger] old_r[q] as int) by {
                            if q > p {
                                lemma_listed_before(app.sort, app.sockets@, i as int, old_r[p as int] as int, old_r[q] as int);
                            }
                        }
                    }
                }
                r.insert(p, i);
                proof {
                    assert(r@ == old_r.insert(p as int, i));
                    assert forall|k: int| 0 <= k < r.len() implies #[trigger] r@[k] < i + 1 && shown(app, r@[k] as int) by {
                        if k < p {
                            assert(r@[k] == old_r[k]);
                        } else if k > p {
                            assert(r@[k] == old_r[k - 1]);
                        }
                    }
                    assert forall|x: int| 0 <= x < i + 1 && shown(app, x) implies r@.contains(x as usize) by {
                        if x == i {
                            assert(r@[p as int] == i);
                        } else {
                            assert(old_r.contains(x as usize));
                            let w = choose|w: int| 0 <= w < old_r.len() && old_r[w] == x as usize;
                            if w < p {
                                assert(r@[w] == old_r[w]);
                            } else {
                                assert(r@[w + 1] == old_r[w]);
                            }
                        }
                    }
                    assert forall|a: int, b: int| 0 <= a < b < r.len() implies listed_before(
                        app.sort,
                        app.sockets@,
                        #[trigger] r@[a] as int,
                        #[trigger] r@[b] as int,
                    ) by {
                        if a < p && b < p {
                            assert(r@[a] == old_r[a] && r@[b] == old_r[b]);
                        } else if a < p && b == p {
                            assert(r@[a] == old_r[a]);
                        } else if a < p && b > p {
                            assert(r@[a] == old_r[a] && r@[b] == old_r[b - 1]);
                            lemma_listed_before(app.sort, app.sockets@, old_r[a] as int, i as int, old_r[b - 1] as int);
                        } else if a == p {
                            assert(r@[b] == old_r[b - 1]);
                        } else {
                            assert(r@[a] == old_r[a - 1] && r@[b] == old_r[b - 1]);
                        }
                    }
                }
            } else {
                proof {
                    assert forall|k: int| 0 <= k < r.len() implies #[trigger] r@[k] < i + 1 by {}
                }
            }
            i = i + 1;
        }
        r
    }

    /// Number of sockets on screen.
    pub fn visible_len(&self) -> (n: usize)
        ensures
            n == visible_count(*self),
    {
        self.visible_indices().len()
    }

    /// The sockets on screen, filtered and in display order.
    pub fn visible(&self) -> (r: Vec<&Socket>)
        ensures
            exists|idx: Seq<usize>| #[trigger] is_listing(*self, idx) && r@.len() == idx.len()
                && forall|k: int| 0 <= k < idx.len() ==> *r@[k] == self.sockets@[idx[k] as int],
    {
        let idx = self.visible_indices();
        let mut r: Vec<&Socket> = Vec::new();
        let mut k: usize = 0;
        while k < idx.len()
            invariant
                k <= idx.len(),
                is_listing(*self, idx@),
                r@.len() == k,
                forall|m: int| 0 <= m < k ==> *r@[m] == self.sockets@[idx@[m] as int],
            decreases idx.len() - k,
        {
            r.push(&self.sockets[idx[k]]);
            k = k + 1;
        }
        r
    }

    /// The selected socket of the list on screen.
    pub fn selected_socket(&self) -> (r: Option<&Socket>)
        ensures
            self.selected >= visible_count(*self) ==> r is None,
            self.selected < visible_count(*self) ==> exists|idx: Seq<usize>| #[trigger] is_listing(*self, idx)
                && r == Some(&self.sockets@[idx[self.selected as int] as int]),
    {
        let idx = self.visible_indices();
        if self.selected < idx.len() {
            Some(&self.sockets[idx[self.selected]])
        } else {
            None
        }
    }

    pub fn clamp_selection(&mut self)
        ensures
            final(self).selected == (if visible_count(*old(self)) == 0 {
                0
            } else if old(self).selected >= visible_count(*old(self)) {
                (visible_count(*old(self)) - 1) as usize
            } else {
                old(self).selected
            }),
            *final(self) == (App { selected: final(self).selected, ..*old(self) }),
    {
        let len = self.visible_len();
        if len == 0 {
            self.selected = 0;
        } else if self.selected >= len {
            self.selected = len - 1;
        }
    }

    pub fn move_down(&mut self)
        ensures
            final(self).selected == down_sel(*old(self)),
            *final(self) == (App { selected: final(self).selected, ..*old(self) }),
    {
        let len = self.visible_len();
        if len > 0 && self.selected < len - 1 {
            self.selected = self.selected + 1;
        }
    }

    pub fn move_up(&mut self)
        ensures
            final(self).selected == up_sel(*old(self)),
            *final(self) == (App { selected: final(self).selected, ..*old(self) }),
    {
        self.selected = self.selected.saturating_sub(1);
    }

    pub fn page_down(&mut self, page: usize)
        requires
            old(self).selected + page <= usize::MAX,
        ensures
            final(self).selected == (if visible_count(*old(self)) == 0 {
                old(self).selected
            } else if old(self).selected + page < visible_count(*old(self)) {
                (old(self).selected + page) as usize
            } else {
                (visible_count(*old(self)) - 1) as usize
            }),
            *final(self) == (App { selected: final(self).selected, ..*old(self) }),
    {
        let len = self.visible_len();
        if len > 0 {
            let s = self.selected + page;
            self.selected = if s < len - 1 {
                s
            } else {
                len - 1
            };
        }
    }

    pub fn page_up(&mut self, page: usize)
        ensures
            final(self).selected == (if old(self).selected >= page {
                (old(self).selected - page) as usize
            } else {
                0
            }),
            *final(self) == (App { selected: final(self).selected, ..*old(self) }),
    {
        self.selected = self.selected.saturating_sub(page);
    }
}

impl Socket {
    /// Whether the socket passes the protocol filter `p`.
    pub fn proto_ok(&self, p: Proto) -> (r: bool)
        ensures
            r == proto_matches(p, self.netid@),
    {
        p.matches(self.netid.as_str())
    }
}

} // verus!

verus! {

// ---------------------------------------------------------------------------
// Refresh
// ---------------------------------------------------------------------------

/// How long a new connection stays highlighted, whatever the refresh
/// interval (at 200 ms a single cycle would be too short to notice), in ms.
pub const HIGHLIGHT_MS: u64 = 1500;

/// UDP "listens" in UNCONN, and short-lived UDP sockets (DNS/QUIC queries)
/// bind to `0.0.0.0` for an instant: a UDP socket counts as exposed only once
/// it has lasted this long (ms).
pub const EXPOSE_DEBOUNCE_MS: u64 = 1500;

pub open spec fn elapsed(now: u64, t: u64) -> u64 {
    if now >= t {
        (now - t) as u64
    } else {
        0
    }
}

pub open spec fn has_socket_key(ss: Seq<Socket>, k: Seq<char>) -> bool {
    exists|i: int| 0 <= i < ss.len() && crate::socket::key_of(#[trigger] ss[i]) == k
}

pub open spec fn key_strings(v: Seq<String>) -> Seq<Seq<char>> {
    v.map_values(|s: String| s@)
}

/// When the connection with key `k` was first noticed as new: now, if it is
/// absent from the previous look (the first look marks nothing); else what
/// was recorded.
pub open spec fn stamp(app: App, k: Seq<char>, now: u64) -> Option<u64> {
    if app.baselined && !key_strings(app.seen_keys@).contains(k) {
        Some(now)
    } else {
        crate::keyed::value_at(crate::keyed::kv_view(app.new_at@), k)
    }
}

/// When the exposed socket with key `k` was first seen: as recorded, or now
/// (once the baseline is set), or a debounce period ago (the baseline itself,
/// so that what is there at start counts at once).
pub open spec fn since(app: App, k: Seq<char>, now: u64) -> u64 {
    match crate::keyed::value_at(crate::keyed::kv_view(app.exposed_since@), k) {
        Some(t) => t,
        None => if app.baselined {
            now
        } else if now >= EXPOSE_DEBOUNCE_MS {
            (now - EXPOSE_DEBOUNCE_MS) as u64
        } else {
            now
        },
    }
}

/// An exposed socket with key `k` is stable: TCP at once, UDP once it has
/// lasted the debounce period.
pub open spec fn stable_key(app: App, ss: Seq<Socket>, k: Seq<char>, now: u64) -> bool {
    exists|i: int|
        0 <= i < ss.len() && crate::socket::exposed(#[trigger] ss[i]) && crate::socket::key_of(ss[i]) == k
            && (ss[i].netid@ == "tcp"@ || elapsed(now, since(app, k, now)) >= EXPOSE_DEBOUNCE_MS)
}

pub open spec fn has_exposed_key(ss: Seq<Socket>, k: Seq<char>) -> bool {
    exists|i: int| 0 <= i < ss.len() && crate::socket::exposed(#[trigger] ss[i]) && crate::socket::key_of(ss[i]) == k
}

/// PID of a network socket of the listing.
pub open spec fn net_pid(ss: Seq<Socket>, p: u32) -> bool {
    exists|i: int| 0 <= i < ss.len() && crate::socket::network(#[trigger] ss[i]) && ss[i].pid == Some(p)
}

/// Entry for `p` in a PID-keyed cache (the first one).
pub open spec fn pid_entry(v: Seq<(u32, Option<String>)>, p: u32) -> Option<Option<Seq<char>>>
    decreases v.len(),
{
    if v.len() == 0 {
        None
    } else if v[0].0 == p {
        Some(crate::rdns::opt_string_view(v[0].1))
    } else {
        pid_entry(v.drop_first(), p)
    }
}

/// Peers on the public internet of the network sockets, in order: the
/// addresses to resolve.
pub open spec fn public_peers(ss: Seq<Socket>) -> Seq<Seq<char>>
    decreases ss.len(),
{
    if ss.len() == 0 {
        seq![]
    } else {
        let s = ss.last();
        public_peers(ss.drop_last()) + if crate::socket::network(s) && crate::analysis::zone_of(
            s.peer_addr@,
        ) == crate::analysis::Zone::Public {
            seq![s.peer_addr@]
        } else {
            seq![]
        }
    }
}

/// Distinct values of a sequence of `Seq<char>`.
pub open spec fn distinct(s: Seq<Seq<char>>) -> bool {
    forall|i: int, j: int| 0 <= i < j < s.len() ==> s[i] != s[j]
}

fn pid_lookup(v: &Vec<(u32, Option<String>)>, p: u32) -> (r: Option<usize>)
    ensures
        r matches Some(i) ==> i < v.len() && v@[i as int].0 == p && pid_entry(v@, p) == Some(
            crate::rdns::opt_string_view(v@[i as int].1),
        ),
        r is None ==> pid_entry(v@, p) is None,
{
    let mut i: usize = 0;
    assert(v@.skip(0) =~= v@);
    while i < v.len()
        invariant
            i <= v.len(),
            pid_entry(v@, p) == pid_entry(v@.skip(i as int), p),
        decreases v.len() - i,
    {
        assert(v@.skip(i as int)[0] == v@[i as int]);
        assert(v@.skip(i as int).drop_first() =~= v@.skip(i + 1));
        if v[i].0 == p {
            return Some(i);
        }
        i = i + 1;
    }
    None
}

fn clone_opt(o: &Option<String>) -> (r: Option<String>)
    ensures
        crate::rdns::opt_string_view(r) == crate::rdns::opt_string_view(*o),
{
    match o {
        Some(s) => Some(s.clone()),
        None => None,
    }
}

fn string_listed(v: &Vec<String>, k: &String) -> (r: bool)
    ensures
        r == key_strings(v@).contains(k@),
{
    let mut i: usize = 0;
    while i < v.len()
        invariant
            i <= v.len(),
            forall|j: int| 0 <= j < i ==> (#[trigger] v@[j])@ != k@,
        decreases v.len() - i,
    {
        if v[i] == *k {
            assert(key_strings(v@)[i as int] == k@);
            return true;
        }
        i = i + 1;
    }
    assert forall|j: int| 0 <= j < key_strings(v@).len() implies key_strings(v@)[j] != k@ by {
        assert(key_strings(v@)[j] == v@[j]@);
    }
    false
}

impl App {
    /// Whether the connection with this key is highlighted as new at `now`
    /// (ms): it was detected less than `HIGHLIGHT_MS` ago.
    pub fn is_new(&self, key: &str, now: u64) -> (r: bool)
        ensures
            r == (crate::keyed::value_at(crate::keyed::kv_view(self.new_at@), key@) matches Some(t)
                && elapsed(now, t) < HIGHLIGHT_MS),
    {
        let k = crate::text::string_of(&chars_of(key));
        proof {
            crate::keyed::lemma_key_index(crate::keyed::kv_view(self.new_at@), key@);
        }
        match crate::keyed::find_key(&self.new_at, &k) {
            Some(i) => now.saturating_sub(self.new_at[i].1) < HIGHLIGHT_MS,
            None => false,
        }
    }

    /// Name of the browser among the ancestors of `pid`, when the connection
    /// was opened by a browser (or a descendant of one).
    pub fn browser_of(&self, pid: Option<u32>) -> (r: Option<String>)
        ensures
            crate::rdns::opt_string_view(r) == (match pid {
                Some(p) => match pid_entry(self.browser@, p) {
                    Some(b) => b,
                    None => None,
                },
                None => None,
            }),
    {
        match pid {
            Some(p) => match pid_lookup(&self.browser, p) {
                Some(i) => clone_opt(&self.browser[i].1),
                None => None,
            },
            None => None,
        }
    }

    /// PIDs known to descend from a browser.
    pub fn browser_pids(&self) -> (r: Vec<u32>)
        ensures
            forall|p: u32| r@.contains(p) <==> exists|i: int| 0 <= i < self.browser@.len() && (#[trigger] self.browser@[i]).0 == p && self.browser@[i].1 is Some,
    {
        let mut r: Vec<u32> = Vec::new();
        let mut i: usize = 0;
        while i < self.browser.len()
            invariant
                i <= self.browser.len(),
                forall|p: u32| r@.contains(p) <==> exists|j: int| 0 <= j < i && (#[trigger] self.browser@[j]).0 == p && self.browser@[j].1 is Some,
            decreases self.browser.len() - i,
        {
            if self.browser[i].1.is_some() {
                let ghost before = r@;
                r.push(self.browser[i].0);
                proof {
                    assert forall|p: u32| r@.contains(p) <==> exists|j: int| 0 <= j < i + 1 && (#[trigger] self.browser@[j]).0 == p && self.browser@[j].1 is Some by {
                        if r@.contains(p) && !before.contains(p) {
                            assert(r@[r@.len() - 1] == p) by {
                                let w = choose|w: int| 0 <= w < r@.len() && r@[w] == p;
                                if w < before.len() {
                                    assert(r@[w] == before[w]);
                                }
                            }
                        }
                        if before.contains(p) {
                            let w = choose|w: int| 0 <= w < before.len() && before[w] == p;
                            assert(r@[w] == before[w]);
                        }
                        if (exists|j: int| 0 <= j < i + 1 && (#[trigger] self.browser@[j]).0 == p && self.browser@[j].1 is Some) && !(exists|j: int| 0 <= j < i && (#[trigger] self.browser@[j]).0 == p && self.browser@[j].1 is Some) {
                            assert(r@[r@.len() - 1] == p);
                        }
                    }
                }
            }
            i = i + 1;
        }
        r
    }

    /// PIDs of the network sockets whose browser ancestry is not known yet,
    /// each once: what the application has to look up in `/proc` before
    /// `refresh`.
    pub fn pids_to_probe(&self, sockets: &[Socket]) -> (r: Vec<u32>)
        ensures
            forall|p: u32| r@.contains(p) <==> (net_pid(sockets@, p) && pid_entry(self.browser@, p) is None),
            r@.no_duplicates(),
    {
        let mut r: Vec<u32> = Vec::new();
        let mut i: usize = 0;
        while i < sockets.len()
            invariant
                i <= sockets.len(),
                r@.no_duplicates(),
                forall|p: u32| r@.contains(p) <==> (net_pid(sockets@.take(i as int), p) && pid_entry(self.browser@, p) is None),
            decreases sockets.len() - i,
        {
            let s = &sockets[i];
            let ghost before = r@;
            if s.is_network() {
                if let Some(p) = s.pid {
                    if pid_lookup(&self.browser, p).is_none() && !crate::events::pid_listed(r.as_slice(), p) {
                        r.push(p);
                    }
                }
            }
            proof {
                let t0 = sockets@.take(i as int);
                let t1 = sockets@.take(i + 1);
                assert(t1[i as int] == *s);
                assert forall|w: int| 0 <= w < i implies #[trigger] t1[w] == t0[w] by {}
                assert forall|p: u32| r@.contains(p) implies (net_pid(t1, p) && pid_entry(self.browser@, p) is None) by {
                    if before.contains(p) {
                        assert(net_pid(t0, p));
                        let w = choose|w: int| 0 <= w < t0.len() && crate::socket::network(#[trigger] t0[w]) && t0[w].pid == Some(p);
                        assert(t1[w] == t0[w]);
                        assert(crate::socket::network(t1[w]));
                    } else {
                        let w = choose|w: int| 0 <= w < r@.len() && r@[w] == p;
                        if w < before.len() {
                            assert(r@[w] == before[w]);
                        }
                        assert(crate::socket::network(t1[i as int]));
                    }
                }
                assert forall|p: u32| (net_pid(t1, p) && pid_entry(self.browser@, p) is None) implies r@.contains(p) by {
                    let w = choose|w: int| 0 <= w < t1.len() && crate::socket::network(#[trigger] t1[w]) && t1[w].pid == Some(p);
                    if w < i {
                        assert(t0[w] == t1[w]);
                        assert(crate::socket::network(t0[w]));
                        assert(net_pid(t0, p));
                        assert(before.contains(p));
                        let v = choose|v: int| 0 <= v < before.len() && before[v] == p;
                        assert(r@[v] == before[v]);
                    } else {
                        if before.contains(p) {
                            let v = choose|v: int| 0 <= v < before.len() && before[v] == p;
                            assert(r@[v] == before[v]);
                        } else {
                            assert(r@[r@.len() - 1] == p);
                        }
                    }
                }
            }
            i = i + 1;
        }
        assert(sockets@.take(sockets.len() as int) =~= sockets@);
        r
    }

    /// Whether a refresh is due at `now` (ms): not paused and the interval has passed.
    pub fn refresh_due(&self, now: u64) -> (r: bool)
        ensures
            r == (!self.paused && elapsed(now, self.last_refresh_ms) >= self.interval_ms),
    {
        !self.paused && now.saturating_sub(self.last_refresh_ms) >= self.interval_ms
    }

    /// Opens or closes the panel that inspects the selected socket's process.
    pub fn toggle_inspector(&mut self)
        ensures
            *final(self) == (App { inspector: !old(self).inspector, ..*old(self) }),
    {
        self.inspector = !self.inspector;
    }
}

} // verus!

verus! {

/// The connection with key `k` is (still) highlighted as new at `now`.
pub open spec fn fresh_stamp(app: App, k: Seq<char>, now: u64) -> bool {
    match stamp(app, k, now) {
        Some(t) => elapsed(now, t) < HIGHLIGHT_MS,
        None => false,
    }
}

pub open spec fn socket_keys(ss: Seq<Socket>) -> Seq<Seq<char>> {
    ss.map_values(|s: Socket| crate::socket::key_of(s))
}

/// The browser cache after a refresh to `ss`: the network PIDs only, each
/// with what was known of it, or else what was probed for it.
pub open spec fn next_browser_entry(
    old: Seq<(u32, Option<String>)>,
    probed: Seq<(u32, Option<String>)>,
    ss: Seq<Socket>,
    p: u32,
) -> Option<Option<Seq<char>>> {
    if net_pid(ss, p) {
        match pid_entry(old, p) {
            Some(b) => Some(b),
            None => pid_entry(probed, p),
        }
    } else {
        None
    }
}

fn keys_of(ss: &Vec<Socket>) -> (r: Vec<String>)
    ensures
        key_strings(r@) == socket_keys(ss@),
{
    let mut r: Vec<String> = Vec::new();
    let mut i: usize = 0;
    while i < ss.len()
        invariant
            i <= ss.len(),
            key_strings(r@) == socket_keys(ss@.take(i as int)),
        decreases ss.len() - i,
    {
        let ghost before = key_strings(r@);
        let k = ss[i].key();
        let ghost kv = k@;
        r.push(k);
        assert(ss@.take(i + 1) =~= ss@.take(i as int).push(ss@[i as int]));
        assert(key_strings(r@) =~= before.push(kv));
        assert(key_strings(r@) =~= socket_keys(ss@.take(i + 1)));
        i = i + 1;
    }
    assert(ss@.take(ss.len() as int) =~= ss@);
    r
}

fn public_peers_of(ss: &Vec<Socket>) -> (r: Vec<String>)
    ensures
        key_strings(r@) == public_peers(ss@),
{
    let mut r: Vec<String> = Vec::new();
    let mut i: usize = 0;
    while i < ss.len()
        invariant
            i <= ss.len(),
            key_strings(r@) == public_peers(ss@.take(i as int)),
        decreases ss.len() - i,
    {
        let ghost before = key_strings(r@);
        assert(ss@.take(i + 1).drop_last() =~= ss@.take(i as int));
        assert(ss@.take(i + 1).last() == ss@[i as int]);
        let s = &ss[i];
        if s.is_network() && crate::analysis::zone(s.peer_addr.as_str()) == crate::analysis::Zone::Public {
            r.push(s.peer_addr.clone());
        }
        assert(key_strings(r@) =~= public_peers(ss@.take(i + 1)));
        i = i + 1;
    }
    assert(ss@.take(ss.len() as int) =~= ss@);
    r
}

impl App {
    fn stamp_of(&self, k: &String, now: u64) -> (r: Option<u64>)
        ensures
            r == stamp(*self, k@, now),
    {
        if self.baselined && !string_listed(&self.seen_keys, k) {
            return Some(now);
        }
        proof {
            crate::keyed::lemma_key_index(crate::keyed::kv_view(self.new_at@), k@);
        }
        match crate::keyed::find_key(&self.new_at, k) {
            Some(i) => Some(self.new_at[i].1),
            None => None,
        }
    }

    fn since_of(&self, k: &String, now: u64) -> (r: u64)
        ensures
            r == since(*self, k@, now),
    {
        proof {
            crate::keyed::lemma_key_index(crate::keyed::kv_view(self.exposed_since@), k@);
        }
        match crate::keyed::find_key(&self.exposed_since, k) {
            Some(i) => self.exposed_since[i].1,
            None => if self.baselined {
                now
            } else if now >= EXPOSE_DEBOUNCE_MS {
                now - EXPOSE_DEBOUNCE_MS
            } else {
                now
            },
        }
    }

    fn next_new_at(&self, ss: &Vec<Socket>, now: u64) -> (r: Vec<(String, u64)>)
        ensures
            crate::keyed::unique_keys(crate::keyed::kv_view(r@)),
            forall|k: Seq<char>|
                crate::keyed::has_key(crate::keyed::kv_view(r@), k) <==> (has_socket_key(ss@, k)
                    && fresh_stamp(*self, k, now)),
            forall|k: Seq<char>|
                crate::keyed::has_key(crate::keyed::kv_view(r@), k) ==> crate::keyed::value_at(
                    crate::keyed::kv_view(r@),
                    k,
                ) == stamp(*self, k, now),
    {
        let mut r: Vec<(String, u64)> = Vec::new();
        let mut i: usize = 0;
        while i < ss.len()
            invariant
                i <= ss.len(),
                crate::keyed::unique_keys(crate::keyed::kv_view(r@)),
                forall|k: Seq<char>|
                    #[trigger] crate::keyed::has_key(crate::keyed::kv_view(r@), k) <==> (has_socket_key(
                        ss@.take(i as int),
                        k,
                    ) && fresh_stamp(*self, k, now)),
                forall|k: Seq<char>|
                    crate::keyed::has_key(crate::keyed::kv_view(r@), k) ==> crate::keyed::value_at(
                        crate::keyed::kv_view(r@),
                        k,
                    ) == stamp(*self, k, now),
            decreases ss.len() - i,
        {
            let k = ss[i].key();
            let ghost kk = k@;
            let st = self.stamp_of(&k, now);
            let ghost before = crate::keyed::kv_view(r@);
            let ghost t0 = ss@.take(i as int);
            let ghost t1 = ss@.take(i + 1);
            assert(t1[i as int] == ss@[i as int]);
            assert forall|w: int| 0 <= w < i implies #[trigger] t1[w] == t0[w] by {}
            let fresh = match st {
                Some(t) => now.saturating_sub(t) < HIGHLIGHT_MS,
                None => false,
            };
            assert(fresh == fresh_stamp(*self, kk, now));
            if fresh {
                let t = st.unwrap();
                proof {
                    crate::keyed::lemma_kv_put(before, kk, t);
                }
                put(&mut r, k, t);
                assert(crate::keyed::kv_view(r@) == crate::keyed::kv_put(before, kk, t));
            }
            proof {
                assert(crate::socket::key_of(t1[i as int]) == kk);
                assert(has_socket_key(t1, kk));
                assert forall|k2: Seq<char>| k2 != kk implies has_socket_key(t1, k2) == has_socket_key(t0, k2) by {
                    if has_socket_key(t1, k2) {
                        let w = choose|w: int| 0 <= w < t1.len() && crate::socket::key_of(#[trigger] t1[w]) == k2;
                        assert(w < i);
                        assert(t0[w] == t1[w]);
                        assert(has_socket_key(t0, k2));
                    }
                    if has_socket_key(t0, k2) {
                        let w = choose|w: int| 0 <= w < t0.len() && crate::socket::key_of(#[trigger] t0[w]) == k2;
                        assert(t1[w] == t0[w]);
                        assert(has_socket_key(t1, k2));
                    }
                }
                assert forall|k2: Seq<char>|
                    crate::keyed::has_key(crate::keyed::kv_view(r@), k2) <==> (has_socket_key(t1, k2)
                        && fresh_stamp(*self, k2, now)) by {
                    if k2 != kk {
                        assert(crate::keyed::has_key(before, k2) <==> (has_socket_key(t0, k2) && fresh_stamp(*self, k2, now)));
                        assert(has_socket_key(t1, k2) == has_socket_key(t0, k2));
                        assert(crate::keyed::has_key(crate::keyed::kv_view(r@), k2) == crate::keyed::has_key(before, k2));
                    } else {
                        if fresh {
                            assert(crate::keyed::has_key(crate::keyed::kv_view(r@), k2));
                        } else {
                            assert(crate::keyed::kv_view(r@) == before);
                            assert(!crate::keyed::has_key(before, k2));
                        }
                    }
                }
            }
            i = i + 1;
        }
        assert(ss@.take(ss.len() as int) =~= ss@);
        r
    }
}

} // verus!

verus! {

proof fn lemma_pid_entry_push(v: Seq<(u32, Option<String>)>, e: (u32, Option<String>), p: u32)
    ensures
        pid_entry(v.push(e), p) == (match pid_entry(v, p) {
            Some(x) => Some(x),
            None => if e.0 == p {
                Some(crate::rdns::opt_string_view(e.1))
            } else {
                None
            },
        }),
    decreases v.len(),
{
    if v.len() > 0 {
        assert(v.push(e).drop_first() =~= v.drop_first().push(e));
        lemma_pid_entry_push(v.drop_first(), e, p);
    } else {
        assert(v.push(e).drop_first() =~= v);
        assert(v.push(e)[0] == e);
    }
}

proof fn lemma_net_pid_step(ss: Seq<Socket>, i: int, p: u32)
    requires
        0 <= i < ss.len(),
    ensures
        net_pid(ss.take(i + 1), p) == (net_pid(ss.take(i), p) || (crate::socket::network(ss[i])
            && ss[i].pid == Some(p))),
{
    let t0 = ss.take(i);
    let t1 = ss.take(i + 1);
    assert(t1[i] == ss[i]);
    if net_pid(t1, p) {
        let w = choose|w: int| 0 <= w < t1.len() && crate::socket::network(#[trigger] t1[w]) && t1[w].pid == Some(p);
        if w < i {
            assert(t0[w] == t1[w]);
        }
    }
    if net_pid(t0, p) {
        let w = choose|w: int| 0 <= w < t0.len() && crate::socket::network(#[trigger] t0[w]) && t0[w].pid == Some(p);
        assert(t1[w] == t0[w]);
    }
}

proof fn lemma_exposed_key_step(ss: Seq<Socket>, i: int, k: Seq<char>)
    requires
        0 <= i < ss.len(),
    ensures
        has_exposed_key(ss.take(i + 1), k) == (has_exposed_key(ss.take(i), k) || (
        crate::socket::exposed(ss[i]) && crate::socket::key_of(ss[i]) == k)),
{
    let t0 = ss.take(i);
    let t1 = ss.take(i + 1);
    assert(t1[i] == ss[i]);
    if has_exposed_key(t1, k) {
        let w = choose|w: int| 0 <= w < t1.len() && crate::socket::exposed(#[trigger] t1[w]) && crate::socket::key_of(t1[w]) == k;
        if w < i {
            assert(t0[w] == t1[w]);
        }
    }
    if has_exposed_key(t0, k) {
        let w = choose|w: int| 0 <= w < t0.len() && crate::socket::exposed(#[trigger] t0[w]) && crate::socket::key_of(t0[w]) == k;
        assert(t1[w] == t0[w]);
    }
}

proof fn lemma_stable_key_step(app: App, ss: Seq<Socket>, i: int, k: Seq<char>, now: u64)
    requires
        0 <= i < ss.len(),
    ensures
        stable_key(app, ss.take(i + 1), k, now) == (stable_key(app, ss.take(i), k, now) || (
        crate::socket::exposed(ss[i]) && crate::socket::key_of(ss[i]) == k && (ss[i].netid@
            == "tcp"@ || elapsed(now, since(app, k, now)) >= EXPOSE_DEBOUNCE_MS))),
{
    let t0 = ss.take(i);
    let t1 = ss.take(i + 1);
    assert(t1[i] == ss[i]);
    if stable_key(app, t1, k, now) {
        let w = choose|w: int|
            0 <= w < t1.len() && crate::socket::exposed(#[trigger] t1[w]) && crate::socket::key_of(t1[w]) == k
                && (t1[w].netid@ == "tcp"@ || elapsed(now, since(app, k, now)) >= EXPOSE_DEBOUNCE_MS);
        if w < i {
            assert(t0[w] == t1[w]);
        }
    }
    if stable_key(app, t0, k, now) {
        let w = choose|w: int|
            0 <= w < t0.len() && crate::socket::exposed(#[trigger] t0[w]) && crate::socket::key_of(t0[w]) == k
                && (t0[w].netid@ == "tcp"@ || elapsed(now, since(app, k, now)) >= EXPOSE_DEBOUNCE_MS);
        assert(t1[w] == t0[w]);
    }
}

impl App {
    fn next_browser(&self, ss: &Vec<Socket>, probed: &Vec<(u32, Option<String>)>) -> (r: Vec<(u32, Option<String>)>)
        ensures
            forall|p: u32| #[trigger] pid_entry(r@, p) == next_browser_entry(self.browser@, probed@, ss@, p),
    {
        let mut r: Vec<(u32, Option<String>)> = Vec::new();
        let mut i: usize = 0;
        while i < ss.len()
            invariant
                i <= ss.len(),
                forall|p: u32| #[trigger] pid_entry(r@, p) == next_browser_entry(self.browser@, probed@, ss@.take(i as int), p),
            decreases ss.len() - i,
        {
            let ghost before = r@;
            let s = &ss[i];
            let net = s.is_network();
            if net {
                if let Some(p0) = s.pid {
                    if pid_lookup(&r, p0).is_none() {
                        match pid_lookup(&self.browser, p0) {
                            Some(j) => {
                                let e = (p0, clone_opt(&self.browser[j].1));
                                r.push(e);
                            },
                            None => match pid_lookup(probed, p0) {
                                Some(j) => {
                                    let e = (p0, clone_opt(&probed[j].1));
                                    r.push(e);
                                },
                                None => {},
                            },
                        }
                    }
                }
            }
            proof {
                assert forall|p: u32| #[trigger] pid_entry(r@, p) == next_browser_entry(self.browser@, probed@, ss@.take(i + 1), p) by {
                    lemma_net_pid_step(ss@, i as int, p);
                    if r@.len() > before.len() {
                        assert(r@ == before.push(r@[r@.len() - 1]));
                        lemma_pid_entry_push(before, r@[r@.len() - 1], p);
                    }
                }
            }
            i = i + 1;
        }
        assert(ss@.take(ss.len() as int) =~= ss@);
        r
    }

    fn next_exposed(&self, ss: &Vec<Socket>, now: u64) -> (r: (Vec<(String, u64)>, Vec<String>))
        ensures
            crate::keyed::unique_keys(crate::keyed::kv_view(r.0@)),
            forall|k: Seq<char>| #[trigger] crate::keyed::has_key(crate::keyed::kv_view(r.0@), k) <==> has_exposed_key(ss@, k),
            forall|k: Seq<char>| #[trigger] crate::keyed::has_key(crate::keyed::kv_view(r.0@), k) ==> crate::keyed::value_at(crate::keyed::kv_view(r.0@), k) == Some(since(*self, k, now)),
            distinct(key_strings(r.1@)),
            forall|k: Seq<char>| #[trigger] key_strings(r.1@).contains(k) <==> stable_key(*self, ss@, k, now),
    {
        let mut es: Vec<(String, u64)> = Vec::new();
        let mut stable: Vec<String> = Vec::new();
        let mut i: usize = 0;
        while i < ss.len()
            invariant
                i <= ss.len(),
                crate::keyed::unique_keys(crate::keyed::kv_view(es@)),
                forall|k: Seq<char>| #[trigger] crate::keyed::has_key(crate::keyed::kv_view(es@), k) <==> has_exposed_key(ss@.take(i as int), k),
                forall|k: Seq<char>| #[trigger] crate::keyed::has_key(crate::keyed::kv_view(es@), k) ==> crate::keyed::value_at(crate::keyed::kv_view(es@), k) == Some(since(*self, k, now)),
                distinct(key_strings(stable@)),
                forall|k: Seq<char>| #[trigger] key_strings(stable@).contains(k) <==> stable_key(*self, ss@.take(i as int), k, now),
            decreases ss.len() - i,
        {
            let ghost before_es = crate::keyed::kv_view(es@);
            let ghost before_st = key_strings(stable@);
            let s = &ss[i];
            let ex = s.is_exposed();
            let k = s.key();
            let ghost kk = k@;
            let mut pushed = false;
            if ex {
                let sv = self.since_of(&k, now);
                let st = string_is(&s.netid, "tcp") || now.saturating_sub(sv) >= EXPOSE_DEBOUNCE_MS;
                if st && !string_listed(&stable, &k) {
                    stable.push(k.clone());
                    pushed = true;
                }
                proof {
                    crate::keyed::lemma_kv_put(before_es, kk, sv);
                }
                put(&mut es, k, sv);
            }
            proof {
                if pushed {
                    assert(key_strings(stable@) =~= before_st.push(kk));
                    assert forall|a: int, b: int| 0 <= a < b < key_strings(stable@).len() implies key_strings(stable@)[a] != key_strings(stable@)[b] by {
                        if b == before_st.len() {
                            assert(key_strings(stable@)[a] == before_st[a]);
                        } else {
                            assert(key_strings(stable@)[a] == before_st[a] && key_strings(stable@)[b] == before_st[b]);
                        }
                    }
                } else {
                    assert(key_strings(stable@) == before_st);
                }
                assert forall|k2: Seq<char>| #[trigger] key_strings(stable@).contains(k2) <==> stable_key(*self, ss@.take(i + 1), k2, now) by {
                    lemma_stable_key_step(*self, ss@, i as int, k2, now);
                    assert(before_st.contains(k2) <==> stable_key(*self, ss@.take(i as int), k2, now));
                    if pushed {
                        if k2 == kk {
                            assert(key_strings(stable@)[before_st.len() as int] == kk);
                        } else if key_strings(stable@).contains(k2) {
                            let w = choose|w: int| 0 <= w < key_strings(stable@).len() && key_strings(stable@)[w] == k2;
                            assert(w < before_st.len());
                            assert(before_st[w] == k2);
                        } else if before_st.contains(k2) {
                            let w = choose|w: int| 0 <= w < before_st.len() && before_st[w] == k2;
                            assert(key_strings(stable@)[w] == k2);
                        }
                    }
                }
                assert forall|k2: Seq<char>| #[trigger] crate::keyed::has_key(crate::keyed::kv_view(es@), k2) <==> has_exposed_key(ss@.take(i + 1), k2) by {
                    lemma_exposed_key_step(ss@, i as int, k2);
                    assert(crate::keyed::has_key(before_es, k2) <==> has_exposed_key(ss@.take(i as int), k2));
                }
                assert forall|k2: Seq<char>| #[trigger] crate::keyed::has_key(crate::keyed::kv_view(es@), k2) implies crate::keyed::value_at(crate::keyed::kv_view(es@), k2) == Some(since(*self, k2, now)) by {
                    if ex && k2 != kk {
                        assert(crate::keyed::has_key(before_es, k2));
                    }
                    if !ex {
                        assert(crate::keyed::has_key(before_es, k2));
                    }
                }
            }
            i = i + 1;
        }
        assert(ss@.take(ss.len() as int) =~= ss@);
        (es, stable)
    }
}

} // verus!

verus! {

/// What a successful refresh to the listing `ss` at `now` makes of the state
/// `o` (with the browser ancestry `probed` looked up for `pids_to_probe`).
pub open spec fn refreshed(o: App, n: App, ss: Seq<Socket>, probed: Seq<(u32, Option<String>)>, now: u64) -> bool {
    &&& n.sockets@ == ss
    &&& n.last_error is None
    &&& n.last_refresh_ms == now
    // Keys seen now, to tell the next refresh's new connections.
    &&& key_strings(n.seen_keys@) == socket_keys(ss)
    // New connections: absent from the previous look (not the first one), highlighted
    // for `HIGHLIGHT_MS`, and only while they exist.
    &&& crate::keyed::unique_keys(crate::keyed::kv_view(n.new_at@))
    &&& forall|k: Seq<char>| #[trigger] crate::keyed::has_key(crate::keyed::kv_view(n.new_at@), k)
        <==> (has_socket_key(ss, k) && fresh_stamp(o, k, now))
    &&& forall|k: Seq<char>| #[trigger] crate::keyed::has_key(crate::keyed::kv_view(n.new_at@), k)
        ==> crate::keyed::value_at(crate::keyed::kv_view(n.new_at@), k) == stamp(o, k, now)
    // Browser ancestry: for the PIDs of network sockets only.
    &&& forall|p: u32| #[trigger] pid_entry(n.browser@, p) == next_browser_entry(o.browser@, probed, ss, p)
    // Exposure debounce.
    &&& crate::keyed::unique_keys(crate::keyed::kv_view(n.exposed_since@))
    &&& forall|k: Seq<char>| #[trigger] crate::keyed::has_key(crate::keyed::kv_view(n.exposed_since@), k)
        <==> has_exposed_key(ss, k)
    &&& forall|k: Seq<char>| #[trigger] crate::keyed::has_key(crate::keyed::kv_view(n.exposed_since@), k)
        ==> crate::keyed::value_at(crate::keyed::kv_view(n.exposed_since@), k) == Some(since(o, k, now))
    &&& n.baselined
    // Summary, with the exposed count after the debounce: the number of
    // distinct stable keys.
    &&& n.summary.total == ss.len()
    &&& n.summary.tcp == crate::socket::count(ss, |s: Socket| s.netid@ == "tcp"@)
    &&& n.summary.udp == crate::socket::count(ss, |s: Socket| s.netid@ == "udp"@)
    &&& n.summary.estab == crate::socket::count(ss, |s: Socket| s.state@ == "ESTAB"@)
    &&& n.summary.listen == crate::socket::count(ss, |s: Socket| s.state@ == "LISTEN"@)
    &&& n.summary.time_wait == crate::socket::count(ss, |s: Socket| s.state@ == "TIME-WAIT"@)
    &&& n.summary.inbound_lan == crate::socket::count(ss, |s: Socket| crate::socket::inbound_from_lan(ss, s))
    &&& distinct(key_strings(n.stable@))
    &&& forall|k: Seq<char>| #[trigger] key_strings(n.stable@).contains(k) <==> stable_key(o, ss, k, now)
    &&& n.summary.exposed == n.stable@.len()
    // Everything else is kept.
    &&& n.proto == o.proto
    &&& n.sort == o.sort
    &&& n.filter == o.filter
    &&& n.filter_mode == o.filter_mode
    &&& n.selected == o.selected
    &&& n.paused == o.paused
    &&& n.is_root == o.is_root
    &&& n.interval_ms == o.interval_ms
    &&& n.inspector == o.inspector
    &&& n.should_quit == o.should_quit
}

impl App {
    /// Takes the result of collecting the sockets at `now` (ms, on a
    /// monotonic clock whose origin lies well before the first refresh):
    /// an error is kept for display; a listing replaces the sockets and
    /// updates the highlights, the browser cache (with `probed`, the ancestry
    /// looked up for `pids_to_probe`), the exposure debounce and the summary.
    /// Returns the public peers to resolve (reverse DNS).
    pub fn refresh(&mut self, result: Result<Vec<Socket>, String>, probed: &Vec<(u32, Option<String>)>, now: u64) -> (rdns: Vec<String>)
        ensures
            match result {
                Err(e) => *final(self) == (App { last_error: Some(e), last_refresh_ms: now, ..*old(self) }) && rdns@.len() == 0,
                Ok(ss) => refreshed(*old(self), *final(self), ss@, probed@, now) && key_strings(rdns@) == public_peers(ss@),
            },
    {
        match result {
            Err(e) => {
                self.last_error = Some(e);
                self.last_refresh_ms = now;
                Vec::new()
            },
            Ok(ss) => {
                let seen = keys_of(&ss);
                let new_at = self.next_new_at(&ss, now);
                let browser = self.next_browser(&ss, probed);
                let (es, stable) = self.next_exposed(&ss, now);
                let mut summary = Summary::from(ss.as_slice());
                summary.exposed = stable.len();
                let rdns = public_peers_of(&ss);
                let ghost st = key_strings(stable@);
                assert(st.len() == stable.len());
                self.seen_keys = seen;
                self.new_at = new_at;
                self.browser = browser;
                self.exposed_since = es;
                self.baselined = true;
                self.stable = stable;
                self.summary = summary;
                self.sockets = ss;
                self.last_error = None;
                self.last_refresh_ms = now;
                rdns
            },
        }
    }
}

} // verus!

verus! {

/// The first look marks no connection as new: with nothing seen and nothing
/// highlighted before, a refresh highlights nothing.
pub proof fn law_first_refresh_marks_nothing_new(o: App, n: App, ss: Seq<Socket>, probed: Seq<(u32, Option<String>)>, now: u64)
    requires
        !o.baselined,
        o.new_at@.len() == 0,
        refreshed(o, n, ss, probed, now),
    ensures
        n.new_at@.len() == 0,
{
    assert forall|k: Seq<char>| !fresh_stamp(o, k, now) by {
        crate::keyed::lemma_key_index(crate::keyed::kv_view(o.new_at@), k);
    }
    if n.new_at@.len() > 0 {
        let k = crate::keyed::kv_view(n.new_at@)[0].0;
        assert(crate::keyed::has_key(crate::keyed::kv_view(n.new_at@), k));
    }
}

/// After the first look, a connection that was not there before is
/// highlighted at once.
pub proof fn law_new_connection_highlighted(o: App, n: App, ss: Seq<Socket>, probed: Seq<(u32, Option<String>)>, now: u64, k: Seq<char>)
    requires
        refreshed(o, n, ss, probed, now),
        o.baselined,
        !key_strings(o.seen_keys@).contains(k),
        has_socket_key(ss, k),
    ensures
        crate::keyed::has_key(crate::keyed::kv_view(n.new_at@), k),
{
    assert(fresh_stamp(o, k, now));
}

/// A new connection stays highlighted for less than `HIGHLIGHT_MS`.
pub proof fn law_highlight_expires(o: App, n: App, ss: Seq<Socket>, probed: Seq<(u32, Option<String>)>, now: u64, k: Seq<char>)
    requires
        refreshed(o, n, ss, probed, now),
        crate::keyed::has_key(crate::keyed::kv_view(n.new_at@), k),
    ensures
        crate::keyed::value_at(crate::keyed::kv_view(n.new_at@), k) matches Some(t) && elapsed(now, t) < HIGHLIGHT_MS,
{
}

/// Once the baseline is set, an exposed socket seen for the first time counts
/// as exposed at once only when it is TCP; a UDP one waits for the debounce.
pub proof fn law_new_udp_waits(o: App, ss: Seq<Socket>, k: Seq<char>, now: u64)
    requires
        o.baselined,
        !crate::keyed::has_key(crate::keyed::kv_view(o.exposed_since@), k),
        stable_key(o, ss, k, now),
    ensures
        exists|i: int| 0 <= i < ss.len() && crate::socket::exposed(#[trigger] ss[i]) && crate::socket::key_of(ss[i]) == k && ss[i].netid@ == "tcp"@,
{
    crate::keyed::lemma_key_index(crate::keyed::kv_view(o.exposed_since@), k);
    assert(since(o, k, now) == now);
    let i = choose|i: int| 0 <= i < ss.len() && crate::socket::exposed(#[trigger] ss[i]) && crate::socket::key_of(ss[i]) == k
        && (ss[i].netid@ == "tcp"@ || elapsed(now, since(o, k, now)) >= EXPOSE_DEBOUNCE_MS);
    assert(ss[i].netid@ == "tcp"@);
}

/// Consecutive refreshes: `apps[j + 1]` is what the refresh to the listing
/// `lists[j]` at `times[j]` made of `apps[j]`.
pub open spec fn refresh_run(
    apps: Seq<App>,
    lists: Seq<Seq<Socket>>,
    probes: Seq<Seq<(u32, Option<String>)>>,
    times: Seq<u64>,
) -> bool {
    &&& apps.len() == lists.len() + 1
    &&& probes.len() == lists.len()
    &&& times.len() == lists.len()
    &&& forall|j: int| #![trigger lists[j]] 0 <= j < lists.len() ==> refreshed(apps[j], apps[j + 1], lists[j], probes[j], times[j])
}

proof fn lemma_since_kept(
    apps: Seq<App>,
    lists: Seq<Seq<Socket>>,
    probes: Seq<Seq<(u32, Option<String>)>>,
    times: Seq<u64>,
    k: Seq<char>,
    j: int,
)
    requires
        refresh_run(apps, lists, probes, times),
        apps[0].baselined,
        !crate::keyed::has_key(crate::keyed::kv_view(apps[0].exposed_since@), k),
        forall|m: int| 0 <= m < lists.len() ==> has_exposed_key(#[trigger] lists[m], k),
        0 <= j < lists.len(),
    ensures
        since(apps[j], k, times[j]) == times[0],
        crate::keyed::value_at(crate::keyed::kv_view(apps[j + 1].exposed_since@), k) == Some(times[0]),
    decreases j,
{
    let _ = lists[j];
    assert(refreshed(apps[j], apps[j + 1], lists[j], probes[j], times[j]));
    assert(has_exposed_key(lists[j], k));
    if j == 0 {
        crate::keyed::lemma_key_index(crate::keyed::kv_view(apps[0].exposed_since@), k);
    } else {
        lemma_since_kept(apps, lists, probes, times, k, j - 1);
    }
    assert(crate::keyed::has_key(crate::keyed::kv_view(apps[j + 1].exposed_since@), k));
}

/// A socket exposed on the wildcard address by UDP alone, appearing after the
/// baseline, counts as exposed only once it has been there at every refresh
/// since it appeared and `EXPOSE_DEBOUNCE_MS` have passed since then. (A
/// refresh without it forgets it: `law_absence_forgets`.)
pub proof fn law_udp_counts_after_debounce(
    apps: Seq<App>,
    lists: Seq<Seq<Socket>>,
    probes: Seq<Seq<(u32, Option<String>)>>,
    times: Seq<u64>,
    k: Seq<char>,
)
    requires
        refresh_run(apps, lists, probes, times),
        apps[0].baselined,
        !crate::keyed::has_key(crate::keyed::kv_view(apps[0].exposed_since@), k),
        forall|m: int| 0 <= m < lists.len() ==> has_exposed_key(#[trigger] lists[m], k),
        forall|m: int, i: int|
            0 <= m < lists.len() && 0 <= i < lists[m].len() && crate::socket::key_of(#[trigger] lists[m][i]) == k
                ==> lists[m][i].netid@ != "tcp"@,
    ensures
        forall|j: int|
            0 <= j < lists.len() ==> (key_strings(#[trigger] apps[j + 1].stable@).contains(k) <==> elapsed(
                times[j],
                times[0],
            ) >= EXPOSE_DEBOUNCE_MS),
{
    assert forall|j: int| 0 <= j < lists.len() implies (key_strings(#[trigger] apps[j + 1].stable@).contains(k)
        <==> elapsed(times[j], times[0]) >= EXPOSE_DEBOUNCE_MS) by {
        lemma_since_kept(apps, lists, probes, times, k, j);
        let _ = lists[j];
        assert(refreshed(apps[j], apps[j + 1], lists[j], probes[j], times[j]));
        assert(has_exposed_key(lists[j], k));
        if elapsed(times[j], times[0]) >= EXPOSE_DEBOUNCE_MS {
            let i = choose|i: int| 0 <= i < lists[j].len() && crate::socket::exposed(#[trigger] lists[j][i]) && crate::socket::key_of(lists[j][i]) == k;
            assert(stable_key(apps[j], lists[j], k, times[j]));
        }
        if stable_key(apps[j], lists[j], k, times[j]) {
            let i = choose|i: int|
                0 <= i < lists[j].len() && crate::socket::exposed(#[trigger] lists[j][i]) && crate::socket::key_of(lists[j][i]) == k
                    && (lists[j][i].netid@ == "tcp"@ || elapsed(times[j], since(apps[j], k, times[j])) >= EXPOSE_DEBOUNCE_MS);
            assert(lists[j][i].netid@ != "tcp"@);
        }
    }
}

/// Some `s <= m` from which `k` was exposed at every refresh up to `m`, and
/// since which the debounce counts.
pub open spec fn present_since(lists: Seq<Seq<Socket>>, times: Seq<u64>, k: Seq<char>, m: int, t: u64) -> bool {
    exists|s: int|
        0 <= s <= m && times[s] == t && (forall|j: int| s <= j <= m ==> has_exposed_key(#[trigger] lists[j], k))
}

proof fn lemma_since_run(
    apps: Seq<App>,
    lists: Seq<Seq<Socket>>,
    probes: Seq<Seq<(u32, Option<String>)>>,
    times: Seq<u64>,
    k: Seq<char>,
    m: int,
)
    requires
        refresh_run(apps, lists, probes, times),
        apps[0].baselined,
        !crate::keyed::has_key(crate::keyed::kv_view(apps[0].exposed_since@), k),
        0 <= m < lists.len(),
    ensures
        has_exposed_key(lists[m], k) ==> present_since(lists, times, k, m, since(apps[m], k, times[m])),
        crate::keyed::has_key(crate::keyed::kv_view(apps[m + 1].exposed_since@), k) ==> has_exposed_key(lists[m], k)
            && crate::keyed::value_at(crate::keyed::kv_view(apps[m + 1].exposed_since@), k) == Some(since(apps[m], k, times[m])),
    decreases m,
{
    let _ = lists[m];
    assert(refreshed(apps[m], apps[m + 1], lists[m], probes[m], times[m]));
    crate::keyed::lemma_key_index(crate::keyed::kv_view(apps[m].exposed_since@), k);
    if m > 0 {
        lemma_since_run(apps, lists, probes, times, k, m - 1);
        let _ = lists[m - 1];
        assert(refreshed(apps[m - 1], apps[m], lists[m - 1], probes[m - 1], times[m - 1]));
        assert(apps[m].baselined);
    }
    if has_exposed_key(lists[m], k) {
        if m > 0 && crate::keyed::has_key(crate::keyed::kv_view(apps[m].exposed_since@), k) {
            let t = since(apps[m - 1], k, times[m - 1]);
            assert(since(apps[m], k, times[m]) == t);
            let s = choose|s: int|
                0 <= s <= m - 1 && times[s] == t && (forall|j: int| s <= j <= m - 1 ==> has_exposed_key(#[trigger] lists[j], k));
            assert forall|j: int| s <= j <= m implies has_exposed_key(#[trigger] lists[j], k) by {}
            assert(present_since(lists, times, k, m, t));
        } else {
            assert(since(apps[m], k, times[m]) == times[m]);
            assert forall|j: int| m <= j <= m implies has_exposed_key(#[trigger] lists[j], k) by {}
            assert(present_since(lists, times, k, m, times[m]));
        }
    }
}

/// A socket exposed by UDP alone, appearing after the baseline, counts as
/// exposed at a refresh only if it was there at every refresh from some
/// earlier one on, and `EXPOSE_DEBOUNCE_MS` have passed since that one.
/// (Together with `law_udp_counts_after_debounce`, which gives the converse,
/// and `law_absence_forgets`: presence through the debounce is what counts.)
pub proof fn law_udp_counts_only_after_presence(
    apps: Seq<App>,
    lists: Seq<Seq<Socket>>,
    probes: Seq<Seq<(u32, Option<String>)>>,
    times: Seq<u64>,
    k: Seq<char>,
    m: int,
)
    requires
        refresh_run(apps, lists, probes, times),
        apps[0].baselined,
        !crate::keyed::has_key(crate::keyed::kv_view(apps[0].exposed_since@), k),
        0 <= m < lists.len(),
        forall|j: int, i: int|
            0 <= j < lists.len() && 0 <= i < lists[j].len() && crate::socket::key_of(#[trigger] lists[j][i]) == k
                ==> lists[j][i].netid@ != "tcp"@,
        key_strings(apps[m + 1].stable@).contains(k),
    ensures
        exists|s: int|
            0 <= s <= m && elapsed(times[m], times[s]) >= EXPOSE_DEBOUNCE_MS && (forall|j: int|
                s <= j <= m ==> has_exposed_key(#[trigger] lists[j], k)),
{
    let _ = lists[m];
    assert(refreshed(apps[m], apps[m + 1], lists[m], probes[m], times[m]));
    assert(stable_key(apps[m], lists[m], k, times[m]));
    let i = choose|i: int|
        0 <= i < lists[m].len() && crate::socket::exposed(#[trigger] lists[m][i]) && crate::socket::key_of(lists[m][i]) == k
            && (lists[m][i].netid@ == "tcp"@ || elapsed(times[m], since(apps[m], k, times[m])) >= EXPOSE_DEBOUNCE_MS);
    assert(lists[m][i].netid@ != "tcp"@);
    assert(has_exposed_key(lists[m], k));
    lemma_since_run(apps, lists, probes, times, k, m);
    let t = since(apps[m], k, times[m]);
    let s = choose|s: int|
        0 <= s <= m && times[s] == t && (forall|j: int| s <= j <= m ==> has_exposed_key(#[trigger] lists[j], k));
    assert(elapsed(times[m], times[s]) >= EXPOSE_DEBOUNCE_MS);
}

/// An exposed TCP socket counts as exposed at once, at any refresh.
pub proof fn law_tcp_counts_at_once(o: App, n: App, ss: Seq<Socket>, probed: Seq<(u32, Option<String>)>, now: u64, i: int)
    requires
        refreshed(o, n, ss, probed, now),
        0 <= i < ss.len(),
        crate::socket::exposed(ss[i]),
        ss[i].netid@ == "tcp"@,
    ensures
        key_strings(n.stable@).contains(crate::socket::key_of(ss[i])),
{
    assert(stable_key(o, ss, crate::socket::key_of(ss[i]), now));
}

/// A refresh in which an exposed socket is gone forgets it: it no longer
/// counts, and when it comes back its debounce starts again.
pub proof fn law_absence_forgets(o: App, n: App, ss: Seq<Socket>, probed: Seq<(u32, Option<String>)>, now: u64, k: Seq<char>)
    requires
        refreshed(o, n, ss, probed, now),
        !has_exposed_key(ss, k),
    ensures
        !crate::keyed::has_key(crate::keyed::kv_view(n.exposed_since@), k),
        !key_strings(n.stable@).contains(k),
{
}

/// What is exposed at the first refresh (before the baseline) counts at
/// once, UDP included, so that it never shows as a new service.
pub proof fn law_baseline_counts_at_once(o: App, ss: Seq<Socket>, i: int, now: u64)
    requires
        !o.baselined,
        0 <= i < ss.len(),
        crate::socket::exposed(ss[i]),
        !crate::keyed::has_key(crate::keyed::kv_view(o.exposed_since@), crate::socket::key_of(ss[i])),
        now >= EXPOSE_DEBOUNCE_MS,
    ensures
        stable_key(o, ss, crate::socket::key_of(ss[i]), now),
{
    crate::keyed::lemma_key_index(crate::keyed::kv_view(o.exposed_since@), crate::socket::key_of(ss[i]));
}

/// The protocol filter cycles rede -> tcp -> udp -> unix -> rede.
pub proof fn law_proto_cycle(p: Proto)
    ensures
        proto_next(proto_next(proto_next(proto_next(p)))) == p,
        proto_next(p) != p,
{
}

/// The protocol filter: `rede` shows TCP and UDP, `tcp` and `udp` one each,
/// `unix` the UNIX sockets (`u_str`, `u_dgr`, ...); `t` goes rede -> tcp ->
/// udp -> unix -> rede.
pub proof fn law_protocol_filter(rest: Seq<char>)
    ensures
        proto_matches(Proto::Net, seq!['t', 'c', 'p']),
        proto_matches(Proto::Net, seq!['u', 'd', 'p']),
        !proto_matches(Proto::Net, seq!['u', '_'] + rest),
        proto_matches(Proto::Tcp, seq!['t', 'c', 'p']),
        !proto_matches(Proto::Tcp, seq!['u', 'd', 'p']),
        proto_matches(Proto::Udp, seq!['u', 'd', 'p']),
        !proto_matches(Proto::Udp, seq!['t', 'c', 'p']),
        proto_matches(Proto::Unix, seq!['u', '_'] + rest),
        !proto_matches(Proto::Unix, seq!['t', 'c', 'p']),
        !proto_matches(Proto::Unix, seq!['u', 'd', 'p']),
        proto_next(Proto::Net) == Proto::Tcp,
        proto_next(Proto::Tcp) == Proto::Udp,
        proto_next(Proto::Udp) == Proto::Unix,
        proto_next(Proto::Unix) == Proto::Net,
        proto_label(Proto::Net) == "rede"@,
        proto_label(Proto::Tcp) == "tcp"@,
        proto_label(Proto::Udp) == "udp"@,
        proto_label(Proto::Unix) == "unix"@,
{
    reveal_strlit("tcp");
    reveal_strlit("udp");
    reveal_strlit("u_");
    let u = seq!['u', '_'] + rest;
    assert(u.take(2) =~= "u_"@);
    assert(u[0] == 'u' && u[1] == '_');
    assert(u != "tcp"@ && u != "udp"@);
    assert(!starts_with(seq!['t', 'c', 'p'], "u_"@)) by {
        assert(seq!['t', 'c', 'p'].take(2)[0] == 't');
    }
    assert(!starts_with(seq!['u', 'd', 'p'], "u_"@)) by {
        assert(seq!['u', 'd', 'p'].take(2)[1] == 'd');
    }
    assert(seq!['t', 'c', 'p'] =~= "tcp"@);
    assert(seq!['u', 'd', 'p'] =~= "udp"@);
}

/// The order keys: `s` goes estado -> local -> remoto -> processo -> recv-q
/// -> send-q -> estado.
pub proof fn law_sort_keys()
    ensures
        sort_next(SortKey::State) == SortKey::Local,
        sort_next(SortKey::Local) == SortKey::Peer,
        sort_next(SortKey::Peer) == SortKey::Process,
        sort_next(SortKey::Process) == SortKey::RecvQ,
        sort_next(SortKey::RecvQ) == SortKey::SendQ,
        sort_next(SortKey::SendQ) == SortKey::State,
        sort_label(SortKey::State) == "estado"@,
        sort_label(SortKey::Local) == "local"@,
        sort_label(SortKey::Peer) == "remoto"@,
        sort_label(SortKey::Process) == "processo"@,
        sort_label(SortKey::RecvQ) == "recv-q"@,
        sort_label(SortKey::SendQ) == "send-q"@,
{
}

/// The ordering cycles through its six keys.
pub proof fn law_sort_cycle(k: SortKey)
    ensures
        sort_next(sort_next(sort_next(sort_next(sort_next(sort_next(k)))))) == k,
        sort_next(k) != k,
{
}

/// After `clamp_selection` the selection is on screen, or 0 when nothing is.
pub proof fn law_clamped_selection_on_screen(o: App, n: App)
    requires
        n.selected == (if visible_count(o) == 0 {
            0
        } else if o.selected >= visible_count(o) {
            (visible_count(o) - 1) as usize
        } else {
            o.selected
        }),
    ensures
        visible_count(o) == 0 ==> n.selected == 0,
        visible_count(o) > 0 ==> n.selected < visible_count(o),
{
    lemma_count_shown_le(o, o.sockets@.len() as int);
}

} // verus!

verus! {

// ---------------------------------------------------------------------------
// Keys
// ---------------------------------------------------------------------------

/// A key press, as the terminal reports it.
#[derive(Debug, Clone, Copy, PartialEq, Eq, Structural)]
pub enum Key {
    Char(char),
    Enter,
    Esc,
    Backspace,
    Up,
    Down,
    PageUp,
    PageDown,
    Home,
    Other,
}

/// What the application has to do after a key.
#[derive(Debug, Clone, Copy, PartialEq, Eq, Structural)]
pub enum KeyAction {
    Nothing,
    /// Refresh now (then clamp the selection).
    Refresh,
}

/// Rows moved by PageUp/PageDown.
pub const PAGE: usize = 10;

/// Removes the last character of a `String` (std's `String::pop`).
#[verifier::external_body]
fn pop_char(s: &mut String) -> (r: Option<char>)
    ensures
        old(s)@.len() == 0 ==> r is None && final(s)@ == old(s)@,
        old(s)@.len() > 0 ==> r == Some(old(s)@.last()) && final(s)@ == old(s)@.drop_last(),
{
    s.pop()
}

/// Selection after `clamp_selection`.
pub open spec fn clamp_value(a: App) -> usize {
    if visible_count(a) == 0 {
        0
    } else if a.selected >= visible_count(a) {
        (visible_count(a) - 1) as usize
    } else {
        a.selected
    }
}

/// The effect of a key on the state (`n` after `o`), with the action asked of
/// the application.
pub open spec fn key_handled(o: App, n: App, key: Key, ctrl: bool, act: KeyAction) -> bool {
    if o.filter_mode {
        // Typing the filter.
        &&& act == KeyAction::Nothing
        &&& match key {
            Key::Enter => n == App { filter_mode: false, selected: clamp_value(o), ..o },
            Key::Esc => n.filter@.len() == 0 && n == App { filter_mode: false, filter: n.filter, ..o },
            Key::Backspace => n.filter@ == (if o.filter@.len() > 0 {
                o.filter@.drop_last()
            } else {
                o.filter@
            }) && n == App { filter: n.filter, ..o },
            Key::Char(c) => n.filter@ == o.filter@.push(c) && n == App { filter: n.filter, ..o },
            _ => n == o,
        }
    } else {
        &&& act == (if key == Key::Char('r') {
            KeyAction::Refresh
        } else {
            KeyAction::Nothing
        })
        &&& match key {
            Key::Char('c') if ctrl => n == App { should_quit: true, ..o },
            Key::Char('q') | Key::Esc => n == App { should_quit: true, ..o },
            Key::Char('p') => n == App { paused: !o.paused, ..o },
            Key::Char('/') => n.filter@.len() == 0 && n == App { filter_mode: true, filter: n.filter, ..o },
            Key::Char('t') => n == App {
                proto: proto_next(o.proto),
                selected: clamp_value(App { proto: proto_next(o.proto), ..o }),
                ..o
            },
            Key::Char('s') => n == App { sort: sort_next(o.sort), ..o },
            Key::Char('a') => n == App {
                proto: Proto::Net,
                selected: clamp_value(App { proto: Proto::Net, ..o }),
                ..o
            },
            Key::Down | Key::Char('j') => n == App { selected: down_sel(o), ..o },
            Key::Up | Key::Char('k') => n == App { selected: up_sel(o), ..o },
            Key::Char('i') | Key::Enter => n == App { inspector: !o.inspector, ..o },
            Key::PageDown => n == App {
                selected: if visible_count(o) == 0 {
                    o.selected
                } else if o.selected + PAGE < visible_count(o) {
                    (o.selected + PAGE) as usize
                } else {
                    (visible_count(o) - 1) as usize
                },
                ..o
            },
            Key::PageUp => n == App {
                selected: if o.selected >= PAGE {
                    (o.selected - PAGE) as usize
                } else {
                    0
                },
                ..o
            },
            Key::Home => n == App { selected: 0, ..o },
            _ => n == o,
        }
    }
}

proof fn lemma_visible_count_filter_mode(a: App, b: App, n: int)
    requires
        a.sockets == b.sockets,
        a.proto == b.proto,
        a.filter@ == b.filter@,
    ensures
        count_shown(a, n) == count_shown(b, n),
    decreases n,
{
    if n > 0 {
        lemma_visible_count_filter_mode(a, b, n - 1);
    }
}

impl App {
    /// Applies a key press (`ctrl`: with the Control modifier).
    pub fn handle_key(&mut self, key: Key, ctrl: bool) -> (act: KeyAction)
        requires
            !old(self).filter_mode && key == Key::PageDown ==> old(self).selected + PAGE <= usize::MAX,
        ensures
            key_handled(*old(self), *final(self), key, ctrl, act),
    {
        let ghost o = *self;
        if self.filter_mode {
            match key {
                Key::Enter => {
                    self.filter_mode = false;
                    proof {
                        lemma_visible_count_filter_mode(*self, o, self.sockets@.len() as int);
                    }
                    self.clamp_selection();
                },
                Key::Esc => {
                    self.filter_mode = false;
                    self.filter = String::new();
                },
                Key::Backspace => {
                    pop_char(&mut self.filter);
                },
                Key::Char(c) => {
                    crate::text::push_char(&mut self.filter, c);
                },
                _ => {},
            }
            return KeyAction::Nothing;
        }
        match key {
            Key::Char('c') if ctrl => {
                self.should_quit = true;
            },
            Key::Char('q') | Key::Esc => {
                self.should_quit = true;
            },
            Key::Char('p') => {
                self.paused = !self.paused;
            },
            Key::Char('r') => {
                return KeyAction::Refresh;
            },
            Key::Char('/') => {
                self.filter_mode = true;
                self.filter = String::new();
            },
            Key::Char('t') => {
                self.proto = self.proto.next();
                self.clamp_selection();
            },
            Key::Char('s') => {
                self.sort = self.sort.next();
            },
            Key::Char('a') => {
                self.proto = Proto::Net;
                self.clamp_selection();
            },
            Key::Down | Key::Char('j') => self.move_down(),
            Key::Up | Key::Char('k') => self.move_up(),
            Key::PageDown => self.page_down(PAGE),
            Key::PageUp => self.page_up(PAGE),
            Key::Home => {
                self.selected = 0;
            },
            Key::Char('i') | Key::Enter => self.toggle_inspector(),
            _ => {},
        }
        KeyAction::Nothing
    }
}

/// The value of the sort key `k` in socket `x` comes no later than in `y`,
/// stated field by field (queues: larger first); equal values keep the
/// listing order.
pub open spec fn in_display_order(k: SortKey, x: Socket, y: Socket, i: int, j: int) -> bool {
    match k {
        SortKey::State => text_le(x.state@, y.state@) && (x.state@ == y.state@ ==> i < j),
        SortKey::Local => port_rank(x.local_port@) <= port_rank(y.local_port@) && (port_rank(x.local_port@)
            == port_rank(y.local_port@) ==> i < j),
        SortKey::Peer => text_le(x.peer_addr@, y.peer_addr@) && (x.peer_addr@ == y.peer_addr@ ==> i < j),
        SortKey::Process => text_le(x.process@, y.process@) && (x.process@ == y.process@ ==> i < j),
        SortKey::RecvQ => x.recv_q >= y.recv_q && (x.recv_q == y.recv_q ==> i < j),
        SortKey::SendQ => x.send_q >= y.send_q && (x.send_q == y.send_q ==> i < j),
    }
}

/// The list on screen is in the order of the sort key: by state, local port
/// (numerically), remote address or process name in increasing order, by
/// Recv-Q or Send-Q with the largest first; equal keys stay in listing order.
#[verifier::spinoff_prover]
pub proof fn law_display_order(app: App, r: Seq<usize>)
    requires
        is_listing(app, r),
    ensures
        forall|a: int, b: int|
            0 <= a < b < r.len() ==> in_display_order(
                app.sort,
                app.sockets@[#[trigger] r[a] as int],
                app.sockets@[#[trigger] r[b] as int],
                r[a] as int,
                r[b] as int,
            ),
{
    let ss = app.sockets@;
    assert forall|a: int, b: int| 0 <= a < b < r.len() implies in_display_order(
        app.sort,
        ss[#[trigger] r[a] as int],
        ss[#[trigger] r[b] as int],
        r[a] as int,
        r[b] as int,
    ) by {
        let i = r[a] as int;
        let j = r[b] as int;
        assert(listed_before(app.sort, ss, i, j));
        let x = ss[i];
        let y = ss[j];
        match app.sort {
            SortKey::State => {
                lemma_lex_irrefl(x.state@);
                if lex_lt(x.state@, y.state@) {
                    lemma_lex_lt_text_le(x.state@, y.state@);
                }
            },
            SortKey::Peer => {
                lemma_lex_irrefl(x.peer_addr@);
                if lex_lt(x.peer_addr@, y.peer_addr@) {
                    lemma_lex_lt_text_le(x.peer_addr@, y.peer_addr@);
                }
            },
            SortKey::Process => {
                lemma_lex_irrefl(x.process@);
                if lex_lt(x.process@, y.process@) {
                    lemma_lex_lt_text_le(x.process@, y.process@);
                }
            },
            _ => {},
        }
    }
}

/// Moving one row down and then one row up comes back to the same row,
/// unless the selection was already on the last row.
pub proof fn law_down_then_up(o: App)
    requires
        o.selected + 1 < visible_count(o),
    ensures
        up_sel(App { selected: down_sel(o), ..o }) == o.selected,
{
    lemma_count_shown_le(o, o.sockets@.len() as int);
    assert(o.sockets@.len() == o.sockets.len());
}

/// Moving one row up and then one row down comes back to the same row,
/// unless the selection was already on the first row.
pub proof fn law_up_then_down(o: App)
    requires
        0 < o.selected < visible_count(o),
    ensures
        down_sel(App { selected: up_sel(o), ..o }) == o.selected,
{
    lemma_visible_count_filter_mode(App { selected: up_sel(o), ..o }, o, o.sockets@.len() as int);
}

/// Esc while typing a filter discards it and leaves the typing mode.
pub proof fn law_escape_discards_filter(o: App, n: App, ctrl: bool, act: KeyAction)
    requires
        o.filter_mode,
        key_handled(o, n, Key::Esc, ctrl, act),
    ensures
        !n.filter_mode,
        n.filter@.len() == 0,
        act == KeyAction::Nothing,
{
}

/// Enter while typing a filter applies it as typed and puts the selection
/// back on screen.
pub proof fn law_enter_applies_filter(o: App, n: App, ctrl: bool, act: KeyAction)
    requires
        o.filter_mode,
        key_handled(o, n, Key::Enter, ctrl, act),
    ensures
        !n.filter_mode,
        n.filter == o.filter,
        visible_count(n) == 0 ==> n.selected == 0,
        visible_count(n) > 0 ==> n.selected < visible_count(n),
{
    lemma_visible_count_filter_mode(n, o, o.sockets@.len() as int);
    lemma_count_shown_le(o, o.sockets@.len() as int);
}

/// What the keys do, outside the filter prompt: `q`, Esc and Ctrl-C quit;
/// `p` pauses or resumes; `r` asks for a refresh; `/` opens an empty filter
/// prompt; `t` changes the protocol filter, `a` goes back to the network
/// sockets; `s` changes the order; Down/`j` and Up/`k` move one row (within
/// the list), PageDown/PageUp ten, Home to the top; `i`/Enter open or close
/// the inspector. In the filter prompt a character is typed, Backspace
/// deletes the last one, Enter applies and Esc discards.
#[verifier::spinoff_prover]
pub proof fn law_keys(o: App, n: App, key: Key, ctrl: bool, act: KeyAction)
    requires
        key_handled(o, n, key, ctrl, act),
    ensures
        !o.filter_mode ==> {
            &&& (key == Key::Char('q') || key == Key::Esc || (key == Key::Char('c') && ctrl)) ==> n.should_quit
            &&& key == Key::Char('p') ==> n.paused == !o.paused
            &&& (act == KeyAction::Refresh <==> key == Key::Char('r'))
            &&& key == Key::Char('/') ==> n.filter_mode && n.filter@.len() == 0
            &&& key == Key::Char('t') ==> n.proto == proto_next(o.proto)
            &&& key == Key::Char('a') ==> n.proto == Proto::Net
            &&& key == Key::Char('s') ==> n.sort == sort_next(o.sort)
            &&& (key == Key::Down || key == Key::Char('j')) ==> n.selected == (if o.selected + 1 < visible_count(o) {
                o.selected + 1
            } else {
                o.selected as int
            })
            &&& (key == Key::Up || key == Key::Char('k')) ==> n.selected == (if o.selected >= 1 {
                o.selected - 1
            } else {
                0
            })
            &&& key == Key::PageDown && visible_count(o) > 0 ==> n.selected == (if o.selected + 10 < visible_count(
                o,
            ) {
                o.selected + 10
            } else {
                visible_count(o) - 1
            })
            &&& key == Key::PageUp ==> n.selected == (if o.selected >= 10 {
                o.selected - 10
            } else {
                0
            })
            &&& key == Key::Home ==> n.selected == 0
            &&& (key == Key::Char('i') || key == Key::Enter) ==> n.inspector == !o.inspector
            &&& key == Key::Char('x') ==> n == o
        },
        o.filter_mode ==> {
            &&& act == KeyAction::Nothing
            &&& (forall|c: char| key == Key::Char(c) ==> n.filter@ == o.filter@.push(c) && n.filter_mode)
            &&& key == Key::Backspace && o.filter@.len() > 0 ==> n.filter@ == o.filter@.drop_last()
            &&& key == Key::Enter ==> !n.filter_mode && n.filter == o.filter
            &&& key == Key::Esc ==> !n.filter_mode && n.filter@.len() == 0
            &&& !n.should_quit || o.should_quit
        },
{
    lemma_count_shown_le(o, o.sockets@.len() as int);
    assert(o.sockets@.len() == o.sockets.len());
}

/// The documented periods and sizes: a new connection is highlighted for
/// 1.5 s, a wildcard UDP socket counts as exposed after 1.5 s, the same
/// notification is not repeated within 30 s, a cached brand lasts 14 days,
/// PageUp/PageDown move ten rows, and at most 64 processes are read up the
/// tree.
pub proof fn law_documented_constants()
    ensures
        HIGHLIGHT_MS == 1500,
        EXPOSE_DEBOUNCE_MS == 1500,
        crate::notify::DEDUP_MS == 30 * 1000,
        crate::rdns::CACHE_TTL_SECS == 14 * 24 * 3600,
        PAGE == 10,
        crate::analysis::MAX_ANCESTRY == 64,
{
}

} // verus!
