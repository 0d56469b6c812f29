//! The multi-version store: for each transaction index, the entries that
//! its latest incarnation wrote. A read at index `i` sees the greatest
//! entry below `i`, summing aggregator increments down to a value.
use vstd::prelude::*;
use crate::assoc::{append_keys, get, to_map, unique_keys, lemma_to_map_pointwise};
use crate::state::{base_get, BaseView};
use crate::types::{Cell, KeyKind, StateKey, TxnIndex};

verus! {

/// One versioned entry.
#[derive(Clone, Copy, Debug, PartialEq, Eq, Structural)]
pub enum MvEntry {
    Put(u128),
    Del,
    Add(u128),
    /// The writer was aborted and may write here again.
    Estimate,
}

/// What a read sees.
#[derive(Clone, Copy, Debug, PartialEq, Eq, Structural)]
pub enum ReadResult {
    /// The value, `None` where the key holds none.
    Value(Option<u128>),
    /// An estimate of this transaction lies below the reader: it must wait.
    Dependency(TxnIndex),
    /// Increments below the reader cannot be applied to their base.
    DeltaApplicationFailure,
}

pub open spec fn cell_entry(c: Cell) -> MvEntry {
    match c {
        Cell::Put(v) => MvEntry::Put(v),
        Cell::Del => MvEntry::Del,
        Cell::Add(d) => MvEntry::Add(d),
    }
}

/// The entries that a write set leaves at its writer's index.
pub open spec fn entries_of(ws: Map<StateKey, Cell>) -> Map<StateKey, MvEntry> {
    ws.map_values(|c: Cell| cell_entry(c))
}

/// A read result with the increment `d` applied.
pub open spec fn add_result(r: ReadResult, d: int) -> ReadResult {
    match r {
        ReadResult::Value(Some(x)) => if x + d <= u128::MAX {
            ReadResult::Value(Some((x + d) as u128))
        } else {
            ReadResult::DeltaApplicationFailure
        },
        ReadResult::Value(None) => ReadResult::DeltaApplicationFailure,
        _ => r,
    }
}

/// What a reader at index `i` sees at `k`.
pub open spec fn mv_read(w: Seq<Map<StateKey, MvEntry>>, base: Map<StateKey, u128>, k: StateKey, i: int) -> ReadResult
    decreases i,
{
    if i <= 0 || i > w.len() {
        ReadResult::Value(base_get(base, k))
    } else if !w[i - 1].contains_key(k) {
        mv_read(w, base, k, i - 1)
    } else {
        match w[i - 1][k] {
            MvEntry::Put(v) => ReadResult::Value(Some(v)),
            MvEntry::Del => ReadResult::Value(None),
            MvEntry::Estimate => ReadResult::Dependency((i - 1) as u32),
            MvEntry::Add(d) => add_result(mv_read(w, base, k, i - 1), d as int),
        }
    }
}

/// Whether writing `k` where an index had the entries `prev` writes outside
/// them: `k` is new there and is not a delayed field (whose reads are
/// checked at commit).
pub open spec fn new_outside(prev: Map<StateKey, MvEntry>, k: StateKey) -> bool {
    !prev.contains_key(k) && k.kind != KeyKind::DelayedField
}

/// The versioned data of a block of `n` transactions.
pub struct VersionedData {
    writes: Vec<Vec<(StateKey, MvEntry)>>,
}

impl View for VersionedData {
    type V = Seq<Map<StateKey, MvEntry>>;

    closed spec fn view(&self) -> Seq<Map<StateKey, MvEntry>> {
        self.writes@.map_values(|v: Vec<(StateKey, MvEntry)>| to_map(v@))
    }
}

/// `r` with the increments `a` applied, where `saw` says whether any were.
pub open spec fn add_acc(r: ReadResult, saw: bool, a: int) -> ReadResult {
    if saw {
        add_result(r, a)
    } else {
        r
    }
}

proof fn lemma_add_acc_step(r: ReadResult, d: int, saw: bool, a: int)
    requires
        d >= 0,
        a >= 0,
        !saw ==> a == 0,
    ensures
        add_acc(add_result(r, d), saw, a) == add_acc(r, true, d + a),
{
}

impl VersionedData {
    pub closed spec fn wf(&self) -> bool {
        forall|i: int| 0 <= i < self.writes@.len() ==> unique_keys(#[trigger] self.writes@[i]@)
    }

    /// A store for `n` transactions with no entries.
    pub fn new(n: usize) -> (r: VersionedData)
        ensures
            r.wf(),
            r@ == Seq::new(n as nat, |i: int| Map::<StateKey, MvEntry>::empty()),
    {
        let mut writes: Vec<Vec<(StateKey, MvEntry)>> = Vec::new();
        let mut i: usize = 0;
        while i < n
            invariant
                i <= n,
                writes@.len() == i,
                forall|j: int| 0 <= j < i ==> (#[trigger] writes@[j])@.len() == 0,
            decreases n - i,
        {
            writes.push(Vec::new());
            i = i + 1;
        }
        let r = VersionedData { writes };
        assert forall|j: int| 0 <= j < n implies (#[trigger] r@[j]) == Map::<StateKey, MvEntry>::empty() by {
            assert(to_map(r.writes@[j]@) =~= Map::<StateKey, MvEntry>::empty());
        }
        assert(r@ =~= Seq::new(n as nat, |i: int| Map::<StateKey, MvEntry>::empty()));
        r
    }

    pub fn num_txns(&self) -> (r: usize)
        ensures
            r == self@.len(),
    {
        self.writes.len()
    }

    /// Replaces the entries of `idx` by the write set `ws`; true where `ws`
    /// writes a key, other than a delayed field, that `idx` had no entry
    /// for.
    pub fn write(&mut self, idx: usize, ws: &Vec<(StateKey, Cell)>) -> (updates_outside: bool)
        requires
            old(self).wf(),
            idx < old(self)@.len(),
            unique_keys(ws@),
        ensures
            final(self).wf(),
            final(self)@ == old(self)@.update(idx as int, entries_of(to_map(ws@))),
            updates_outside == exists|k: StateKey| #[trigger] to_map(ws@).contains_key(k) && new_outside(old(self)@[idx as int], k),
    {
        let ghost prev = self@[idx as int];
        let mut entries: Vec<(StateKey, MvEntry)> = Vec::new();
        let mut outside = false;
        let mut j: usize = 0;
        while j < ws.len()
            invariant
                self.wf(),
                idx < self@.len(),
                prev == self@[idx as int],
                j <= ws@.len(),
                entries@.len() == j,
                forall|i: int| 0 <= i < j ==> (#[trigger] entries@[i]).0 == ws@[i].0 && entries@[i].1 == cell_entry(ws@[i].1),
                outside == exists|i: int| 0 <= i < j && new_outside(prev, #[trigger] ws@[i].0),
            decreases ws@.len() - j,
        {
            let (k, c) = ws[j];
            proof {
                assert(self@[idx as int] == to_map(self.writes@[idx as int]@));
            }
            if k.kind != KeyKind::DelayedField && get(&self.writes[idx], k).is_none() {
                outside = true;
            }
            let e = match c {
                Cell::Put(v) => MvEntry::Put(v),
                Cell::Del => MvEntry::Del,
                Cell::Add(d) => MvEntry::Add(d),
            };
            entries.push((k, e));
            j = j + 1;
        }
        proof {
            let g = |k: StateKey, c: Cell| cell_entry(c);
            lemma_to_map_pointwise(ws@, entries@, g);
            assert(to_map(entries@) =~= entries_of(to_map(ws@)));
            assert(unique_keys(entries@)) by {
                assert forall|a: int, b: int| 0 <= a < b < entries@.len() implies entries@[a].0 != entries@[b].0 by {
                    assert(entries@[a].0 == ws@[a].0 && entries@[b].0 == ws@[b].0);
                }
            }
            if outside {
                let i = choose|i: int| 0 <= i < ws@.len() && new_outside(prev, #[trigger] ws@[i].0);
                crate::assoc::lemma_to_map_dom(ws@, ws@[i].0);
                assert(to_map(ws@).contains_key(ws@[i].0));
            } else {
                assert forall|k: StateKey| #[trigger] to_map(ws@).contains_key(k) implies !new_outside(prev, k) by {
                    crate::assoc::lemma_to_map_dom(ws@, k);
                    let i = choose|i: int| 0 <= i < ws@.len() && ws@[i].0 == k;
                    assert(!new_outside(prev, ws@[i].0));
                }
            }
        }
        self.writes.set(idx, entries);
        proof {
            assert(self@ =~= old(self)@.update(idx as int, entries_of(to_map(ws@))));
        }
        outside
    }

    /// Turns every entry of `idx` into an estimate.
    pub fn mark_estimate(&mut self, idx: usize)
        requires
            old(self).wf(),
            idx < old(self)@.len(),
        ensures
            final(self).wf(),
            final(self)@ == old(self)@.update(idx as int, old(self)@[idx as int].map_values(|e: MvEntry| MvEntry::Estimate)),
    {
        let ghost prev = self.writes@[idx as int]@;
        let mut entries: Vec<(StateKey, MvEntry)> = Vec::new();
        let mut j: usize = 0;
        let n = self.writes[idx].len();
        while j < n
            invariant
                self.wf(),
                idx < self@.len(),
                prev == self.writes@[idx as int]@,
                n == prev.len(),
                j <= n,
                entries@.len() == j,
                forall|i: int| 0 <= i < j ==> (#[trigger] entries@[i]).0 == prev[i].0 && entries@[i].1 == MvEntry::Estimate,
            decreases n - j,
        {
            let k = self.writes[idx][j].0;
            entries.push((k, MvEntry::Estimate));
            j = j + 1;
        }
        proof {
            let g = |k: StateKey, e: MvEntry| MvEntry::Estimate;
            lemma_to_map_pointwise(prev, entries@, g);
            assert(to_map(entries@) =~= to_map(prev).map_values(|e: MvEntry| MvEntry::Estimate));
            assert(unique_keys(entries@)) by {
                assert forall|a: int, b: int| 0 <= a < b < entries@.len() implies entries@[a].0 != entries@[b].0 by {
                    assert(entries@[a].0 == prev[a].0 && entries@[b].0 == prev[b].0);
                }
            }
        }
        self.writes.set(idx, entries);
        proof {
            assert(self@ =~= old(self)@.update(idx as int, old(self)@[idx as int].map_values(|e: MvEntry| MvEntry::Estimate)));
        }
    }

    /// Appends to `out` every key with an entry below index `end`.
    pub fn append_keys_below(&self, end: usize, out: &mut Vec<StateKey>)
        requires
            self.wf(),
            end <= self@.len(),
        ensures
            final(out)@.len() >= old(out)@.len(),
            forall|i: int| 0 <= i < old(out)@.len() ==> #[trigger] final(out)@[i] == old(out)@[i],
            forall|j: int, k: StateKey| 0 <= j < end && #[trigger] self@[j].contains_key(k) ==> exists|i: int| 0 <= i < final(out)@.len() && final(out)@[i] == k,
    {
        let ghost start = out@;
        let mut j: usize = 0;
        while j < end
            invariant
                self.wf(),
                end <= self@.len(),
                j <= end,
                out@.len() >= start.len(),
                forall|i: int| 0 <= i < start.len() ==> #[trigger] out@[i] == start[i],
                forall|x: int, k: StateKey| 0 <= x < j && #[trigger] self@[x].contains_key(k) ==> exists|i: int| 0 <= i < out@.len() && out@[i] == k,
            decreases end - j,
        {
            let ghost prev = out@;
            append_keys(&self.writes[j], out);
            proof {
                assert(self@[j as int] == to_map(self.writes@[j as int]@));
                assert forall|x: int, k: StateKey| 0 <= x < j + 1 && #[trigger] self@[x].contains_key(k) implies exists|i: int| 0 <= i < out@.len() && out@[i] == k by {
                    if x < j {
                        let i = choose|i: int| 0 <= i < prev.len() && prev[i] == k;
                        assert(out@[i] == k);
                    }
                }
            }
            j = j + 1;
        }
    }

    /// What a reader at index `idx` sees at `k`, over `base`.
    pub fn read(&self, k: StateKey, idx: usize, base: &BaseView) -> (r: ReadResult)
        requires
            self.wf(),
            base.wf(),
            idx <= self@.len(),
            self@.len() <= u32::MAX,
        ensures
            r == mv_read(self@, base@, k, idx as int),
    {
        let mut j: usize = idx;
        let mut acc: u128 = 0;
        let mut overflow = false;
        let mut saw = false;
        let ghost mut acc_int: int = 0;
        while j > 0
            invariant
                self.wf(),
                j <= idx <= self@.len(),
                self@.len() <= u32::MAX,
                acc_int >= 0,
                !saw ==> acc_int == 0 && !overflow,
                !overflow ==> acc == acc_int,
                overflow ==> acc_int > u128::MAX,
                mv_read(self@, base@, k, idx as int) == add_acc(mv_read(self@, base@, k, j as int), saw, acc_int),
            decreases j,
        {
            proof {
                assert(self@[j - 1] == to_map(self.writes@[j - 1]@));
            }
            match get(&self.writes[j - 1], k) {
                None => {},
                Some(MvEntry::Put(v)) => {
                    return Self::finish(ReadResult::Value(Some(v)), saw, acc, overflow, Ghost(acc_int));
                },
                Some(MvEntry::Del) => {
                    return Self::finish(ReadResult::Value(None), saw, acc, overflow, Ghost(acc_int));
                },
                Some(MvEntry::Estimate) => {
                    return ReadResult::Dependency((j - 1) as u32);
                },
                Some(MvEntry::Add(d)) => {
                    proof {
                        lemma_add_acc_step(mv_read(self@, base@, k, j - 1), d as int, saw, acc_int);
                        acc_int = d + acc_int;
                    }
                    if overflow || acc > u128::MAX - d {
                        overflow = true;
                    } else {
                        acc = acc + d;
                    }
                    saw = true;
                },
            }
            j = j - 1;
        }
        Self::finish(ReadResult::Value(base.get(k)), saw, acc, overflow, Ghost(acc_int))
    }

    fn finish(r: ReadResult, saw: bool, acc: u128, overflow: bool, acc_int: Ghost<int>) -> (out: ReadResult)
        requires
            acc_int@ >= 0,
            !saw ==> acc_int@ == 0 && !overflow,
            !overflow ==> acc == acc_int@,
            overflow ==> acc_int@ > u128::MAX,
        ensures
            out == add_acc(r, saw, acc_int@),
    {
        if !saw {
            return r;
        }
        match r {
            ReadResult::Value(Some(x)) => if !overflow && x <= u128::MAX - acc {
                ReadResult::Value(Some(x + acc))
            } else {
                ReadResult::DeltaApplicationFailure
            },
            ReadResult::Value(None) => ReadResult::DeltaApplicationFailure,
            _ => r,
        }
    }
}

/// The store with every entry of `idx` turned into an estimate.
pub open spec fn estimates_at(w: Seq<Map<StateKey, MvEntry>>, idx: int) -> Seq<Map<StateKey, MvEntry>> {
    w.update(idx, w[idx].map_values(|e: MvEntry| MvEntry::Estimate))
}

/// While an estimate of transaction `x` is the greatest entry at `k` below
/// a reader, the reader sees a dependency on `x` and no value.
pub proof fn lemma_estimate_blocks(w: Seq<Map<StateKey, MvEntry>>, base: Map<StateKey, u128>, k: StateKey, x: int, i: int)
    requires
        0 <= x < i <= w.len(),
        w[x].contains_key(k),
        w[x][k] == MvEntry::Estimate,
        forall|y: int| x < y < i ==> !(#[trigger] w[y]).contains_key(k),
    ensures
        mv_read(w, base, k, i) == ReadResult::Dependency(x as u32),
    decreases i,
{
    if i - 1 > x {
        lemma_estimate_blocks(w, base, k, x, i - 1);
    }
}

/// The sum of the increments at `k` below index `i`.
pub open spec fn delta_sum(w: Seq<Map<StateKey, MvEntry>>, k: StateKey, i: int) -> int
    decreases i,
{
    if i <= 0 {
        0
    } else {
        let rest = delta_sum(w, k, i - 1);
        if w[i - 1].contains_key(k) && w[i - 1][k] is Add {
            rest + w[i - 1][k]->Add_0
        } else {
            rest
        }
    }
}

/// Where only increments lie below `i` at an aggregator `k` whose base
/// value is `b`, a reader at `i` sees `b` plus their sum (or a failure
/// when that exceeds `u128::MAX`).
pub proof fn lemma_delta_sum(w: Seq<Map<StateKey, MvEntry>>, base: Map<StateKey, u128>, k: StateKey, i: int)
    requires
        0 <= i <= w.len(),
        base.contains_key(k),
        forall|y: int| 0 <= y < i && (#[trigger] w[y]).contains_key(k) ==> w[y][k] is Add,
    ensures
        mv_read(w, base, k, i) == (if base[k] + delta_sum(w, k, i) <= u128::MAX {
            ReadResult::Value(Some((base[k] + delta_sum(w, k, i)) as u128))
        } else {
            ReadResult::DeltaApplicationFailure
        }),
        delta_sum(w, k, i) >= 0,
    decreases i,
{
    if i > 0 {
        lemma_delta_sum(w, base, k, i - 1);
    }
}

} // verus!
