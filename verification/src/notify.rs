//! Desktop notifications for high-severity events: the decision whether to
//! send one (deduplicated by body within a window). Sending it with
//! `notify-send` is the application's.
use crate::keyed::{find_key, has_key, kv_put, kv_view, put, value_at};
use vstd::prelude::*;

verus! {

/// Deduplication window, in milliseconds: the same notification is not
/// repeated within it.
pub const DEDUP_MS: u64 = 30000;

pub struct Notifier {
    enabled: bool,
    /// Body of each recent notification, with when it was sent (ms).
    recent: Vec<(String, u64)>,
}

pub open spec fn elapsed(now: u64, t: u64) -> u64 {
    if now >= t {
        (now - t) as u64
    } else {
        0
    }
}

/// The entries still within the window at `now`, in order.
pub open spec fn fresh(s: Seq<(Seq<char>, u64)>, now: u64) -> Seq<(Seq<char>, u64)>
    decreases s.len(),
{
    if s.len() == 0 {
        seq![]
    } else {
        fresh(s.drop_last(), now) + if elapsed(now, s.last().1) < DEDUP_MS {
            seq![s.last()]
        } else {
            seq![]
        }
    }
}

/// Whether a notification with `body` at `now` is sent, given the recent
/// ones: the notifier is enabled and the same body was not sent within the
/// window.
pub open spec fn sends(enabled: bool, recent: Seq<(Seq<char>, u64)>, body: Seq<char>, now: u64) -> bool {
    enabled && !(value_at(recent, body) matches Some(t) && elapsed(now, t) < DEDUP_MS)
}

/// The recent notifications after deciding on `body` at `now`.
pub open spec fn after(enabled: bool, recent: Seq<(Seq<char>, u64)>, body: Seq<char>, now: u64) -> Seq<
    (Seq<char>, u64),
> {
    if sends(enabled, recent, body, now) {
        kv_put(fresh(recent, now), body, now)
    } else {
        recent
    }
}

impl Notifier {
    pub closed spec fn is_enabled(&self) -> bool {
        self.enabled
    }

    pub closed spec fn recent(&self) -> Seq<(Seq<char>, u64)> {
        kv_view(self.recent@)
    }

    /// One entry per body.
    pub open spec fn wf(&self) -> bool {
        crate::keyed::unique_keys(self.recent())
    }

    /// `requested` comes from the user's flag; `available` says whether
    /// `notify-send` can be used (a session bus and the program exist).
    pub fn new(requested: bool, available: bool) -> (r: Notifier)
        ensures
            r.is_enabled() == (requested && available),
            r.recent().len() == 0,
            r.wf(),
    {
        Notifier { enabled: requested && available, recent: Vec::new() }
    }

    pub fn enabled(&self) -> (r: bool)
        ensures
            r == self.is_enabled(),
    {
        self.enabled
    }

    /// Decides whether to send a notification with `body` at `now` (ms), and
    /// remembers it when so; entries older than the window are forgotten.
    pub fn notify(&mut self, body: &str, now: u64) -> (send: bool)
        requires
            old(self).wf(),
        ensures
            final(self).wf(),
            send == sends(old(self).is_enabled(), old(self).recent(), body@, now),
            final(self).is_enabled() == old(self).is_enabled(),
            final(self).recent() == after(old(self).is_enabled(), old(self).recent(), body@, now),
    {
        if !self.enabled {
            return false;
        }
        let mut key = String::new();
        key.append(body);
        match find_key(&self.recent, &key) {
            Some(i) => {
                proof {
                    crate::keyed::lemma_key_index(kv_view(self.recent@), body@);
                }
                let t = self.recent[i].1;
                if now.saturating_sub(t) < DEDUP_MS {
                    return false;
                }
            },
            None => {},
        }
        let ghost old_recent = kv_view(self.recent@);
        let mut kept: Vec<(String, u64)> = Vec::new();
        let mut k: usize = 0;
        while k < self.recent.len()
            invariant
                k <= self.recent.len(),
                old_recent == kv_view(self.recent@),
                kv_view(kept@) == fresh(old_recent.take(k as int), now),
            decreases self.recent.len() - k,
        {
            assert(old_recent.take(k + 1).drop_last() =~= old_recent.take(k as int));
            assert(old_recent.take(k + 1).last() == (self.recent@[k as int].0@, self.recent@[k as int].1));
            let ghost before = kv_view(kept@);
            if now.saturating_sub(self.recent[k].1) < DEDUP_MS {
                let e = (self.recent[k].0.clone(), self.recent[k].1);
                kept.push(e);
                assert(kv_view(kept@) =~= before.push((e.0@, e.1)));
            }
            assert(kv_view(kept@) =~= fresh(old_recent.take(k + 1), now));
            k = k + 1;
        }
        assert(old_recent.take(self.recent.len() as int) =~= old_recent);
        proof {
            lemma_fresh_unique(old_recent, now);
            crate::keyed::lemma_kv_put(fresh(old_recent, now), body@, now);
        }
        put(&mut kept, key, now);
        self.recent = kept;
        true
    }
}

/// The same notification is not repeated within the window: once a body has
/// been decided on at `t`, it is not sent again at any `t2` with
/// `t <= t2 < t + DEDUP_MS`.
pub proof fn law_no_repeat_within_window(
    enabled: bool,
    recent: Seq<(Seq<char>, u64)>,
    body: Seq<char>,
    t: u64,
    t2: u64,
)
    requires
        crate::keyed::unique_keys(recent),
        sends(enabled, recent, body, t),
        t <= t2,
        t2 - t < DEDUP_MS,
    ensures
        !sends(enabled, after(enabled, recent, body, t), body, t2),
{
    lemma_fresh_unique(recent, t);
    crate::keyed::lemma_kv_put(fresh(recent, t), body, t);
}

/// With notifications off (not asked for, or no `notify-send`), nothing is
/// ever sent and nothing is remembered.
pub proof fn law_disabled_never_sends(recent: Seq<(Seq<char>, u64)>, body: Seq<char>, now: u64)
    ensures
        !sends(false, recent, body, now),
        after(false, recent, body, now) == recent,
{
}

proof fn lemma_fresh_unique(s: Seq<(Seq<char>, u64)>, now: u64)
    requires
        crate::keyed::unique_keys(s),
    ensures
        crate::keyed::unique_keys(fresh(s, now)),
        forall|i: int| 0 <= i < fresh(s, now).len() ==> s.contains(#[trigger] fresh(s, now)[i]),
    decreases s.len(),
{
    if s.len() > 0 {
        let d = s.drop_last();
        assert forall|a: int, b: int| 0 <= a < b < d.len() implies (#[trigger] d[a]).0 != (
        #[trigger] d[b]).0 by {
            assert(d[a] == s[a] && d[b] == s[b]);
        }
        lemma_fresh_unique(d, now);
        let f = fresh(s, now);
        let fd = fresh(d, now);
        assert forall|i: int| 0 <= i < f.len() implies s.contains(#[trigger] f[i]) by {
            if i < fd.len() {
                assert(f[i] == fd[i]);
                assert(d.contains(fd[i]));
                let j = choose|j: int| 0 <= j < d.len() && d[j] == fd[i];
                assert(s[j] == d[j]);
            } else {
                assert(f[i] == s.last());
                assert(s[s.len() - 1] == s.last());
            }
        }
        assert forall|a: int, b: int| 0 <= a < b < f.len() implies (#[trigger] f[a]).0 != (
        #[trigger] f[b]).0 by {
            if b < fd.len() {
                assert(f[a] == fd[a] && f[b] == fd[b]);
            } else {
                assert(f[a] == fd[a]);
                assert(d.contains(fd[a]));
                let j = choose|j: int| 0 <= j < d.len() && d[j] == fd[a];
                assert(s[j].0 != s[s.len() - 1].0);
            }
        }
    }
}

/// Forgetting old notifications keeps exactly those sent less than
/// `DEDUP_MS` ago.
#[verifier::spinoff_prover]
pub proof fn law_prune_keeps_recent(s: Seq<(Seq<char>, u64)>, now: u64)
    ensures
        forall|e: (Seq<char>, u64)| #[trigger] fresh(s, now).contains(e) <==> (s.contains(e) && elapsed(now, e.1) < DEDUP_MS),
    decreases s.len(),
{
    if s.len() > 0 {
        let d = s.drop_last();
        law_prune_keeps_recent(d, now);
        let f = fresh(s, now);
        let fd = fresh(d, now);
        assert forall|e: (Seq<char>, u64)| #[trigger] f.contains(e) <==> (s.contains(e) && elapsed(now, e.1) < DEDUP_MS) by {
            if f.contains(e) {
                let w = choose|w: int| 0 <= w < f.len() && f[w] == e;
                if w < fd.len() {
                    assert(f[w] == fd[w]);
                    assert(fd.contains(e));
                    let v = choose|v: int| 0 <= v < d.len() && d[v] == e;
                    assert(s[v] == d[v]);
                } else {
                    assert(s[s.len() - 1] == e);
                }
            }
            if s.contains(e) && elapsed(now, e.1) < DEDUP_MS {
                let v = choose|v: int| 0 <= v < s.len() && s[v] == e;
                if v < s.len() - 1 {
                    assert(d[v] == e);
                    assert(d.contains(e));
                    assert(fd.contains(e));
                    let w = choose|w: int| 0 <= w < fd.len() && fd[w] == e;
                    assert(f[w] == e);
                } else {
                    assert(f[fd.len() as int] == e);
                }
            }
        }
    } else {
        assert forall|e: (Seq<char>, u64)| #[trigger] fresh(s, now).contains(e) <==> (s.contains(e) && elapsed(now, e.1) < DEDUP_MS) by {
            assert(fresh(s, now).len() == 0);
        }
    }
}

proof fn lemma_value_of_contains(s: Seq<(Seq<char>, u64)>, k: Seq<char>, v: u64)
    requires
        crate::keyed::unique_keys(s),
        s.contains((k, v)),
    ensures
        value_at(s, k) == Some(v),
{
    crate::keyed::lemma_key_index(s, k);
    let j = choose|j: int| 0 <= j < s.len() && s[j] == (k, v);
    assert(has_key(s, k));
    let i = crate::keyed::key_index(s, k).unwrap();
    if i != j {
        if i < j {
            assert(s[i].0 != s[j].0);
        } else {
            assert(s[j].0 != s[i].0);
        }
    }
}

/// The recent notifications after deciding on each of `calls` (body, time)
/// in turn.
pub open spec fn replay(enabled: bool, recent: Seq<(Seq<char>, u64)>, calls: Seq<(Seq<char>, u64)>) -> Seq<(Seq<char>, u64)>
    decreases calls.len(),
{
    if calls.len() == 0 {
        recent
    } else {
        let r = replay(enabled, recent, calls.drop_last());
        after(enabled, r, calls.last().0, calls.last().1)
    }
}

proof fn lemma_replay_keeps(
    enabled: bool,
    r0: Seq<(Seq<char>, u64)>,
    calls: Seq<(Seq<char>, u64)>,
    b: Seq<char>,
    t: u64,
    t2: u64,
)
    requires
        crate::keyed::unique_keys(r0),
        value_at(r0, b) matches Some(tb) && t <= tb <= t2,
        forall|j: int| 0 <= j < calls.len() ==> t <= (#[trigger] calls[j]).1 <= t2,
        t <= t2,
        t2 - t < DEDUP_MS,
    ensures
        crate::keyed::unique_keys(replay(enabled, r0, calls)),
        value_at(replay(enabled, r0, calls), b) matches Some(tb) && t <= tb <= t2,
    decreases calls.len(),
{
    if calls.len() > 0 {
        let cs = calls.drop_last();
        assert forall|j: int| 0 <= j < cs.len() implies t <= (#[trigger] cs[j]).1 <= t2 by {
            assert(cs[j] == calls[j]);
        }
        lemma_replay_keeps(enabled, r0, cs, b, t, t2);
        let r = replay(enabled, r0, cs);
        let c = calls.last();
        assert(c == calls[calls.len() - 1]);
        let tb = value_at(r, b).unwrap();
        if sends(enabled, r, c.0, c.1) {
            lemma_fresh_unique(r, c.1);
            crate::keyed::lemma_kv_put(fresh(r, c.1), c.0, c.1);
            if c.0 != b {
                crate::keyed::lemma_key_index(r, b);
                let i = crate::keyed::key_index(r, b).unwrap();
                assert(r.contains((b, tb))) by {
                    assert(r[i] == (b, tb));
                }
                law_prune_keeps_recent(r, c.1);
                assert(fresh(r, c.1).contains((b, tb)));
                lemma_value_of_contains(fresh(r, c.1), b, tb);
            }
        }
    }
}

/// No notification is repeated within the window, whatever comes between:
/// once `body` was sent at `t`, deciding on any further notifications at
/// times between `t` and `t2 < t + DEDUP_MS` never lets `body` be sent again
/// at `t2`.
pub proof fn law_no_repeat_over_calls(
    enabled: bool,
    recent: Seq<(Seq<char>, u64)>,
    body: Seq<char>,
    t: u64,
    calls: Seq<(Seq<char>, u64)>,
    t2: u64,
)
    requires
        crate::keyed::unique_keys(recent),
        sends(enabled, recent, body, t),
        forall|j: int| 0 <= j < calls.len() ==> t <= (#[trigger] calls[j]).1 <= t2,
        t <= t2,
        t2 - t < DEDUP_MS,
    ensures
        !sends(enabled, replay(enabled, after(enabled, recent, body, t), calls), body, t2),
{
    lemma_fresh_unique(recent, t);
    crate::keyed::lemma_kv_put(fresh(recent, t), body, t);
    lemma_replay_keeps(enabled, after(enabled, recent, body, t), calls, body, t, t2);
}

} // verus!
