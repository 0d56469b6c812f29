//! Small association lists.
//!
//! Write sets, local buffers and un-versioned state are held as vectors of
//! `(key, value)` pairs with pairwise distinct keys. Their meaning is the map
//! `to_map` that they denote.
use vstd::prelude::*;
use crate::types::StateKey;

verus! {

/// The map that an association list denotes (a later pair wins).
pub open spec fn to_map<K, V>(s: Seq<(K, V)>) -> Map<K, V>
    decreases s.len(),
{
    if s.len() == 0 {
        Map::empty()
    } else {
        to_map(s.drop_last()).insert(s.last().0, s.last().1)
    }
}

/// No key occurs twice.
pub open spec fn unique_keys<K, V>(s: Seq<(K, V)>) -> bool {
    forall|i: int, j: int| 0 <= i < j < s.len() ==> s[i].0 != s[j].0
}

/// The association list after setting `k` to `v`: updated in place where
/// `k` occurs, appended otherwise.
pub open spec fn put_spec<K, V>(s: Seq<(K, V)>, k: K, v: V) -> Seq<(K, V)> {
    if exists|i: int| 0 <= i < s.len() && s[i].0 == k {
        let i = choose|i: int| 0 <= i < s.len() && s[i].0 == k;
        s.update(i, (k, v))
    } else {
        s.push((k, v))
    }
}

pub proof fn lemma_to_map_dom<K, V>(s: Seq<(K, V)>, k: K)
    ensures
        to_map(s).contains_key(k) <==> exists|i: int| 0 <= i < s.len() && s[i].0 == k,
    decreases s.len(),
{
    if s.len() > 0 {
        lemma_to_map_dom(s.drop_last(), k);
        if to_map(s).contains_key(k) && s.last().0 != k {
            let i = choose|i: int| 0 <= i < s.len() - 1 && s.drop_last()[i].0 == k;
            assert(s[i].0 == k);
        }
        if exists|i: int| 0 <= i < s.len() && s[i].0 == k {
            let i = choose|i: int| 0 <= i < s.len() && s[i].0 == k;
            if i < s.len() - 1 {
                assert(s.drop_last()[i].0 == k);
            }
        }
    }
}

pub proof fn lemma_to_map_at<K, V>(s: Seq<(K, V)>, i: int)
    requires
        unique_keys(s),
        0 <= i < s.len(),
    ensures
        to_map(s).contains_key(s[i].0),
        to_map(s)[s[i].0] == s[i].1,
    decreases s.len(),
{
    if i < s.len() - 1 {
        lemma_to_map_at(s.drop_last(), i);
        assert(s.drop_last()[i] == s[i]);
    }
}

pub proof fn lemma_put<K, V>(s: Seq<(K, V)>, k: K, v: V)
    requires
        unique_keys(s),
    ensures
        unique_keys(put_spec(s, k, v)),
        to_map(put_spec(s, k, v)) == to_map(s).insert(k, v),
    decreases s.len(),
{
    if exists|i: int| 0 <= i < s.len() && s[i].0 == k {
        let i = choose|i: int| 0 <= i < s.len() && s[i].0 == k;
        let t = s.update(i, (k, v));
        assert(put_spec(s, k, v) == t);
        lemma_update(s, i, k, v);
    } else {
        let t = s.push((k, v));
        assert(t.drop_last() =~= s);
        assert(to_map(t) == to_map(s).insert(k, v));
    }
}

proof fn lemma_update<K, V>(s: Seq<(K, V)>, i: int, k: K, v: V)
    requires
        unique_keys(s),
        0 <= i < s.len(),
        s[i].0 == k,
    ensures
        unique_keys(s.update(i, (k, v))),
        to_map(s.update(i, (k, v))) == to_map(s).insert(k, v),
    decreases s.len(),
{
    let t = s.update(i, (k, v));
    if i == s.len() - 1 {
        assert(t.drop_last() =~= s.drop_last());
        assert(to_map(t) =~= to_map(s).insert(k, v));
    } else {
        lemma_update(s.drop_last(), i, k, v);
        assert(t.drop_last() =~= s.drop_last().update(i, (k, v)));
        assert(s.last().0 != k);
        assert(to_map(t) =~= to_map(s).insert(k, v));
    }
}

/// A list with distinct keys denotes a map with as many keys.
pub proof fn lemma_to_map_len<K, V>(s: Seq<(K, V)>)
    requires
        unique_keys(s),
    ensures
        to_map(s).dom().finite(),
        to_map(s).dom().len() == s.len(),
    decreases s.len(),
{
    if s.len() > 0 {
        let r = s.drop_last();
        let k = s.last().0;
        lemma_to_map_len(r);
        lemma_to_map_dom(r, k);
        assert(!to_map(r).contains_key(k)) by {
            if to_map(r).contains_key(k) {
                let i = choose|i: int| 0 <= i < r.len() && r[i].0 == k;
                assert(s[i].0 == s[s.len() - 1].0);
            }
        }
        assert(to_map(s).dom() =~= to_map(r).dom().insert(k));
    }
}

/// The prefix of length `i + 1` denotes the prefix of length `i` with one
/// more pair.
pub proof fn lemma_to_map_take<K, V>(s: Seq<(K, V)>, i: int)
    requires
        0 <= i < s.len(),
    ensures
        to_map(s.take(i + 1)) == to_map(s.take(i)).insert(s[i].0, s[i].1),
{
    assert(s.take(i + 1).drop_last() =~= s.take(i));
}

/// Two lists with the same keys in the same places, the second's values
/// computed from the first's by `g`, denote maps related by `g`.
pub proof fn lemma_to_map_pointwise<K, A, B>(s1: Seq<(K, A)>, s2: Seq<(K, B)>, g: spec_fn(K, A) -> B)
    requires
        s1.len() == s2.len(),
        forall|j: int| 0 <= j < s1.len() ==> (#[trigger] s2[j]).0 == s1[j].0 && s2[j].1 == g(s1[j].0, s1[j].1),
    ensures
        to_map(s2) == Map::new(|k: K| to_map(s1).contains_key(k), |k: K| g(k, to_map(s1)[k])),
    decreases s1.len(),
{
    if s1.len() == 0 {
        assert(to_map(s2) =~= Map::new(|k: K| to_map(s1).contains_key(k), |k: K| g(k, to_map(s1)[k])));
    } else {
        let (a, b) = (s1.drop_last(), s2.drop_last());
        assert forall|j: int| 0 <= j < a.len() implies (#[trigger] b[j]).0 == a[j].0 && b[j].1 == g(a[j].0, a[j].1) by {
            assert(b[j] == s2[j] && a[j] == s1[j]);
        }
        lemma_to_map_pointwise(a, b, g);
        assert(s2.last() == s2[s2.len() - 1]);
        assert(to_map(s2) =~= Map::new(|k: K| to_map(s1).contains_key(k), |k: K| g(k, to_map(s1)[k])));
    }
}

/// Position of `k` in `s`, if any.
pub fn find<V>(s: &Vec<(StateKey, V)>, k: StateKey) -> (r: Option<usize>)
    ensures
        match r {
            Some(i) => i < s@.len() && s@[i as int].0 == k,
            None => forall|i: int| 0 <= i < s@.len() ==> s@[i].0 != k,
        },
{
    let mut i: usize = 0;
    while i < s.len()
        invariant
            i <= s@.len(),
            forall|j: int| 0 <= j < i ==> s@[j].0 != k,
        decreases s@.len() - i,
    {
        if s[i].0 == k {
            return Some(i);
        }
        i = i + 1;
    }
    None
}

/// Looks `k` up: the value that `to_map` gives it.
pub fn get<V: Copy>(s: &Vec<(StateKey, V)>, k: StateKey) -> (r: Option<V>)
    requires
        unique_keys(s@),
    ensures
        r == (if to_map(s@).contains_key(k) { Some(to_map(s@)[k]) } else { None::<V> }),
{
    proof {
        lemma_to_map_dom(s@, k);
    }
    match find(s, k) {
        Some(i) => {
            proof {
                lemma_to_map_at(s@, i as int);
            }
            Some(s[i].1)
        },
        None => None,
    }
}

/// Sets `k` to `v`.
pub fn put<V>(s: &mut Vec<(StateKey, V)>, k: StateKey, v: V)
    requires
        unique_keys(old(s)@),
    ensures
        unique_keys(final(s)@),
        to_map(final(s)@) == to_map(old(s)@).insert(k, v),
{
    proof {
        lemma_put(s@, k, v);
    }
    match find(s, k) {
        Some(i) => {
            proof {
                assert(exists|j: int| 0 <= j < s@.len() && s@[j].0 == k);
                let c = choose|j: int| 0 <= j < s@.len() && s@[j].0 == k;
                assert(c == i) by {
                    if c != i {
                        assert(unique_keys(s@));
                    }
                }
            }
            s.set(i, (k, v));
        },
        None => {
            s.push((k, v));
        },
    }
}

/// Position of `k` in a list keyed by integers, if any.
fn find_u64<V>(s: &Vec<(u64, V)>, k: u64) -> (r: Option<usize>)
    ensures
        match r {
            Some(i) => i < s@.len() && s@[i as int].0 == k,
            None => forall|i: int| 0 <= i < s@.len() ==> s@[i].0 != k,
        },
{
    let mut i: usize = 0;
    while i < s.len()
        invariant
            i <= s@.len(),
            forall|j: int| 0 <= j < i ==> s@[j].0 != k,
        decreases s@.len() - i,
    {
        if s[i].0 == k {
            return Some(i);
        }
        i = i + 1;
    }
    None
}

/// Sets `k` to `v` in a list keyed by integers.
pub fn put_u64<V>(s: &mut Vec<(u64, V)>, k: u64, v: V)
    requires
        unique_keys(old(s)@),
    ensures
        unique_keys(final(s)@),
        to_map(final(s)@) == to_map(old(s)@).insert(k, v),
{
    proof {
        lemma_put(s@, k, v);
    }
    match find_u64(s, k) {
        Some(i) => {
            proof {
                let c = choose|j: int| 0 <= j < s@.len() && s@[j].0 == k;
                assert(c == i) by {
                    if c != i {
                        assert(unique_keys(s@));
                    }
                }
            }
            s.set(i, (k, v));
        },
        None => {
            s.push((k, v));
        },
    }
}

/// Appends the keys of `s` to `out`.
pub fn append_keys<V>(s: &Vec<(StateKey, V)>, out: &mut Vec<StateKey>)
    ensures
        final(out)@.len() >= old(out)@.len(),
        forall|i: int| 0 <= i < old(out)@.len() ==> #[trigger] final(out)@[i] == old(out)@[i],
        forall|k: StateKey| #[trigger] to_map(s@).contains_key(k) ==> exists|i: int| 0 <= i < final(out)@.len() && final(out)@[i] == k,
{
    let ghost start = out@;
    let mut j: usize = 0;
    while j < s.len()
        invariant
            j <= s@.len(),
            out@.len() == start.len() + j,
            forall|i: int| 0 <= i < start.len() ==> #[trigger] out@[i] == start[i],
            forall|x: int| 0 <= x < j ==> #[trigger] out@[start.len() + x] == s@[x].0,
        decreases s@.len() - j,
    {
        out.push(s[j].0);
        j = j + 1;
    }
    proof {
        assert forall|k: StateKey| #[trigger] to_map(s@).contains_key(k) implies exists|i: int| 0 <= i < out@.len() && out@[i] == k by {
            lemma_to_map_dom(s@, k);
            let x = choose|x: int| 0 <= x < s@.len() && s@[x].0 == k;
            assert(out@[start.len() + x] == k);
        }
    }
}

} // verus!
