//! Resource groups: a group's members are the keys of kind `Group` with the
//! group's id, each versioned on its own; a committed transaction that
//! writes a member outputs the whole group, finalized and serialized.
use vstd::prelude::*;
use crate::assoc::{put_u64, to_map, unique_keys, lemma_to_map_pointwise};
use crate::codec::{bcs_group_bytes, group_entries_view, le_bytes, serialize_group, serialize_value};
use crate::types::{KeyKind, StateKey};

verus! {

pub open spec fn member(g: u64, t: u64) -> StateKey {
    StateKey { kind: KeyKind::Group, id: g, tag: t }
}

/// The members of group `g` where `f` gives each key's value: tag to bytes.
pub open spec fn members_of(f: spec_fn(StateKey) -> Option<u128>, g: u64) -> Map<u64, Seq<u8>> {
    Map::new(|t: u64| f(member(g, t)) is Some, |t: u64| le_bytes(f(member(g, t))->Some_0))
}

/// The finalized and serialized group `g`, given candidate keys `cands`
/// (among them every member that has a value) and their values `vals`
/// under `f`. `None` where the group cannot be serialized.
pub fn finalize_group(g: u64, cands: &Vec<StateKey>, vals: &Vec<Option<u128>>, f: Ghost<spec_fn(StateKey) -> Option<u128>>) -> (r: Option<Vec<u8>>)
    requires
        cands@.len() == vals@.len(),
        forall|i: int| 0 <= i < cands@.len() ==> #[trigger] vals@[i] == f@(cands@[i]),
        forall|t: u64| (#[trigger] f@(member(g, t))) is Some ==> exists|i: int| 0 <= i < cands@.len() && cands@[i] == member(g, t),
    ensures
        match r {
            Some(b) => bcs_group_bytes(members_of(f@, g)) == Some(b@),
            None => bcs_group_bytes(members_of(f@, g)) is None,
        },
{
    let mut acc: Vec<(u64, u128)> = Vec::new();
    let mut i: usize = 0;
    while i < cands.len()
        invariant
            i <= cands@.len() == vals@.len(),
            forall|j: int| 0 <= j < cands@.len() ==> #[trigger] vals@[j] == f@(cands@[j]),
            unique_keys(acc@),
            to_map(acc@) == Map::new(
                |t: u64| (exists|j: int| 0 <= j < i && cands@[j] == member(g, t)) && f@(member(g, t)) is Some,
                |t: u64| f@(member(g, t))->Some_0,
            ),
        decreases cands@.len() - i,
    {
        let k = cands[i];
        let ghost before = to_map(acc@);
        if k.kind == KeyKind::Group && k.id == g {
            match vals[i] {
                Some(v) => put_u64(&mut acc, k.tag, v),
                None => {},
            }
            assert(k == member(g, k.tag));
        }
        i = i + 1;
        proof {
            assert(to_map(acc@) =~= Map::new(
                |t: u64| (exists|j: int| 0 <= j < i && cands@[j] == member(g, t)) && f@(member(g, t)) is Some,
                |t: u64| f@(member(g, t))->Some_0,
            )) by {
                assert forall|t: u64| (exists|j: int| 0 <= j < i && cands@[j] == member(g, t)) implies
                    (exists|j: int| 0 <= j < i - 1 && cands@[j] == member(g, t)) || cands@[i - 1] == member(g, t) by {
                    let j = choose|j: int| 0 <= j < i && cands@[j] == member(g, t);
                    if j < i - 1 {} else {}
                }
            }
        }
    }
    let mut entries: Vec<(u64, Vec<u8>)> = Vec::new();
    let mut j: usize = 0;
    while j < acc.len()
        invariant
            j <= acc@.len(),
            entries@.len() == j,
            forall|x: int| 0 <= x < j ==> (#[trigger] entries@[x]).0 == acc@[x].0 && entries@[x].1@ == le_bytes(acc@[x].1),
        decreases acc@.len() - j,
    {
        let (t, v) = acc[j];
        entries.push((t, serialize_value(v)));
        j = j + 1;
    }
    proof {
        let s2 = entries@.map_values(|p: (u64, Vec<u8>)| (p.0, p.1@));
        let h = |t: u64, v: u128| le_bytes(v);
        assert forall|x: int| 0 <= x < acc@.len() implies (#[trigger] s2[x]).0 == acc@[x].0 && s2[x].1 == h(acc@[x].0, acc@[x].1) by {
            assert(entries@[x].0 == acc@[x].0);
        }
        lemma_to_map_pointwise(acc@, s2, h);
        assert(unique_keys(entries@)) by {
            assert forall|a: int, b: int| 0 <= a < b < entries@.len() implies entries@[a].0 != entries@[b].0 by {
                assert(entries@[a].0 == acc@[a].0 && entries@[b].0 == acc@[b].0);
            }
        }
        assert forall|t: u64| #[trigger] f@(member(g, t)) is Some implies (exists|j: int| 0 <= j < cands@.len() && cands@[j] == member(g, t)) by {}
        assert(group_entries_view(entries@) =~= members_of(f@, g));
    }
    serialize_group(&entries)
}

} // verus!
