//! Small keyed tables: vectors of `(key, value)` pairs, one pair per key,
//! in the order in which the keys first arrived.
use vstd::prelude::*;

verus! {

/// The pairs with keys and values seen through their views.
pub open spec fn kv_view<V: View>(s: Seq<(String, V)>) -> Seq<(Seq<char>, V::V)> {
    s.map_values(|e: (String, V)| (e.0@, e.1@))
}

/// Position of the first pair with key `k`.
pub open spec fn key_index<T>(s: Seq<(Seq<char>, T)>, k: Seq<char>) -> Option<int>
    decreases s.len(),
{
    if s.len() == 0 {
        None
    } else if s[0].0 == k {
        Some(0)
    } else {
        match key_index(s.drop_first(), k) {
            Some(i) => Some(i + 1),
            None => None,
        }
    }
}

pub open spec fn has_key<T>(s: Seq<(Seq<char>, T)>, k: Seq<char>) -> bool {
    exists|i: int| 0 <= i < s.len() && (#[trigger] s[i]).0 == k
}

pub open spec fn unique_keys<T>(s: Seq<(Seq<char>, T)>) -> bool {
    forall|i: int, j: int| 0 <= i < j < s.len() ==> (#[trigger] s[i]).0 != (#[trigger] s[j]).0
}

/// Value stored under `k` (the one of the first pair with that key).
pub open spec fn value_at<T>(s: Seq<(Seq<char>, T)>, k: Seq<char>) -> Option<T> {
    match key_index(s, k) {
        Some(i) => Some(s[i].1),
        None => None,
    }
}

/// `s` with `v` stored under `k`: replacing the value in place when the key
/// is present, appending the pair otherwise.
pub open spec fn kv_put<T>(s: Seq<(Seq<char>, T)>, k: Seq<char>, v: T) -> Seq<(Seq<char>, T)> {
    match key_index(s, k) {
        Some(i) => s.update(i, (k, v)),
        None => s.push((k, v)),
    }
}

pub proof fn lemma_key_index<T>(s: Seq<(Seq<char>, T)>, k: Seq<char>)
    ensures
        key_index(s, k) matches Some(i) ==> 0 <= i < s.len() && s[i].0 == k && forall|j: int|
            0 <= j < i ==> (#[trigger] s[j]).0 != k,
        key_index(s, k) is None ==> forall|j: int| 0 <= j < s.len() ==> (#[trigger] s[j]).0 != k,
        key_index(s, k) is Some <==> has_key(s, k),
    decreases s.len(),
{
    if s.len() > 0 && s[0].0 != k {
        lemma_key_index(s.drop_first(), k);
        assert forall|j: int| 1 <= j < s.len() implies #[trigger] s[j] == s.drop_first()[j - 1] by {}
        if has_key(s, k) {
            let w = choose|i: int| 0 <= i < s.len() && (#[trigger] s[i]).0 == k;
            assert(s.drop_first()[w - 1].0 == k);
        }
    }
}

pub proof fn lemma_kv_put<T>(s: Seq<(Seq<char>, T)>, k: Seq<char>, v: T)
    requires
        unique_keys(s),
    ensures
        unique_keys(kv_put(s, k, v)),
        has_key(kv_put(s, k, v), k),
        value_at(kv_put(s, k, v), k) == Some(v),
        forall|k2: Seq<char>| k2 != k ==> has_key(kv_put(s, k, v), k2) == has_key(s, k2),
        forall|k2: Seq<char>| k2 != k ==> value_at(kv_put(s, k, v), k2) == value_at(s, k2),
{
    lemma_key_index(s, k);
    let t = kv_put(s, k, v);
    match key_index(s, k) {
        Some(p) => {
            assert(t == s.update(p, (k, v)));
            assert(t.len() == s.len());
            assert forall|a: int| 0 <= a < t.len() && a != p implies #[trigger] t[a] == s[a] by {}
            assert(t[p] == (k, v));
        },
        None => {
            assert(t == s.push((k, v)));
            assert forall|a: int| 0 <= a < s.len() implies #[trigger] t[a] == s[a] by {}
            assert(t[s.len() as int] == (k, v));
        },
    }
    lemma_key_index(t, k);
    assert forall|a: int, b: int| 0 <= a < b < t.len() implies (#[trigger] t[a]).0 != (
    #[trigger] t[b]).0 by {
        if key_index(s, k) is None && b == s.len() {
            assert(s[a].0 != k);
        } else if key_index(s, k) == Some(a) {
            assert(s[b].0 != s[a].0);
        } else if key_index(s, k) == Some(b) {
            assert(s[a].0 != s[b].0);
        } else {
            assert(s[a].0 != s[b].0);
        }
    }
    assert(key_index(t, k) == key_index(s, k) || key_index(s, k) is None) by {
        if key_index(s, k) is Some {
            let p = key_index(s, k).unwrap();
            let q = key_index(t, k).unwrap();
            if q < p {
                assert(s[q].0 == k);
            }
            if p < q {
                assert(t[p].0 == k);
            }
        }
    }
    if key_index(s, k) is None {
        let q = key_index(t, k).unwrap();
        if q < s.len() {
            assert(s[q].0 == k);
        }
    }
    assert forall|k2: Seq<char>| k2 != k implies has_key(t, k2) == has_key(s, k2) && value_at(t, k2)
        == value_at(s, k2) by {
        lemma_key_index(s, k2);
        lemma_key_index(t, k2);
        if has_key(s, k2) {
            let i = key_index(s, k2).unwrap();
            assert(t[i] == s[i]);
            assert(has_key(t, k2));
            let j = key_index(t, k2).unwrap();
            if j < i {
                assert(s[j] == t[j]);
            }
            if i < j {
                assert(t[i].0 == k2);
            }
        }
        if has_key(t, k2) {
            let j = key_index(t, k2).unwrap();
            assert(j < s.len());
            assert(t[j] == s[j]);
            assert(has_key(s, k2));
        }
    }
}

/// Position of the pair with key `k`.
pub fn find_key<V: View>(s: &Vec<(String, V)>, k: &String) -> (r: Option<usize>)
    ensures
        r matches Some(i) ==> key_index(kv_view(s@), k@) == Some(i as int),
        r is None ==> key_index(kv_view(s@), k@) is None,
{
    let ghost sv = kv_view(s@);
    proof {
        lemma_key_index(sv, k@);
    }
    let mut i: usize = 0;
    while i < s.len()
        invariant
            i <= s.len(),
            sv == kv_view(s@),
            forall|j: int| 0 <= j < i ==> (#[trigger] sv[j]).0 != k@,
            key_index(sv, k@) matches Some(p) ==> i <= p,
        decreases s.len() - i,
    {
        proof {
            lemma_key_index(sv, k@);
        }
        assert(sv[i as int].0 == s@[i as int].0@);
        if s[i].0 == *k {
            return Some(i);
        }
        i = i + 1;
    }
    proof {
        lemma_key_index(sv, k@);
    }
    None
}

/// Whether some pair has key `k`.
pub fn contains_key<V: View>(s: &Vec<(String, V)>, k: &String) -> (r: bool)
    ensures
        r == has_key(kv_view(s@), k@),
{
    proof {
        lemma_key_index(kv_view(s@), k@);
    }
    find_key(s, k).is_some()
}

/// Stores `v` under `k` (see `kv_put`).
pub fn put<V: View>(s: &mut Vec<(String, V)>, k: String, v: V)
    ensures
        kv_view(final(s)@) == kv_put(kv_view(old(s)@), k@, v@),
{
    let ghost before = kv_view(s@);
    proof {
        lemma_key_index(before, k@);
    }
    match find_key(s, &k) {
        Some(i) => {
            let ghost kk = k@;
            let ghost vv = v@;
            s.set(i, (k, v));
            assert(kv_view(s@) =~= before.update(i as int, (kk, vv)));
        },
        None => {
            let ghost kk = k@;
            let ghost vv = v@;
            s.push((k, v));
            assert(kv_view(s@) =~= before.push((kk, vv)));
        },
    }
}

} // verus!
