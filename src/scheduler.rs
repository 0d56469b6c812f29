//! The scheduler: hands out execution and validation tasks, tracks each
//! transaction's state, validation waves, and the commit pointer.
use vstd::prelude::*;
use crate::types::{Incarnation, TxnIndex};

verus! {

/// Validation generation.
pub type Wave = u64;

/// Where a transaction stands.
#[derive(Clone, Copy, Debug, PartialEq, Eq, Structural)]
pub enum TxnState {
    ReadyToExecute(Incarnation),
    Executing(Incarnation),
    /// Waits for the transaction at the index to finish an execution.
    Suspended(Incarnation, TxnIndex),
    Executed(Incarnation),
    Aborting(Incarnation),
    Committed(Incarnation),
}

/// Work handed to a worker.
#[derive(Clone, Copy, Debug, PartialEq, Eq, Structural)]
pub enum SchedulerTask {
    ExecutionTask(TxnIndex, Incarnation),
    ValidationTask(TxnIndex, Incarnation, Wave),
    NoTask,
    Done,
}

pub struct SchedulerView {
    pub status: Seq<TxnState>,
    /// The next index to try to execute.
    pub execution_idx: nat,
    /// The next index to try to validate.
    pub validation_idx: nat,
    /// The current validation wave.
    pub wave: Wave,
    /// The wave at which the current incarnation last passed validation.
    pub validated: Seq<Option<Wave>>,
    /// The wave from which a validation counts for each transaction.
    pub required: Seq<Wave>,
    pub commit_idx: nat,
    pub halted: bool,
    /// A validation passed since commits were last coordinated.
    pub armed: bool,
}

/// Transactions below the commit pointer are committed, the others not.
pub open spec fn prefix_committed(v: SchedulerView) -> bool {
    &&& v.commit_idx <= v.status.len()
    &&& forall|i: int| 0 <= i < v.status.len() ==> ((#[trigger] v.status[i]) is Committed <==> i < v.commit_idx)
}

pub open spec fn incarnation_of(s: TxnState) -> Incarnation {
    match s {
        TxnState::ReadyToExecute(i) => i,
        TxnState::Executing(i) => i,
        TxnState::Suspended(i, _) => i,
        TxnState::Executed(i) => i,
        TxnState::Aborting(i) => i,
        TxnState::Committed(i) => i,
    }
}

/// One scheduler transition: every transaction keeps its incarnation, or
/// goes from `Aborting(i)` to `ReadyToExecute(i + 1)`; a committed one stays
/// as it is.
pub open spec fn incarnations_advance(a: SchedulerView, b: SchedulerView) -> bool {
    &&& b.status.len() == a.status.len()
    &&& forall|i: int| 0 <= i < a.status.len() ==> {
        let s = #[trigger] a.status[i];
        let t = b.status[i];
        &&& incarnation_of(t) == incarnation_of(s)
            || (s is Aborting && t == TxnState::ReadyToExecute((incarnation_of(s) + 1) as u32))
        &&& s is Committed ==> t == s
    }
}

/// The next task and the state after handing it out: `Done` once halted;
/// else a validation at the validation index where it lies below the
/// execution index (none where that transaction has not executed); else an
/// execution at the execution index (none where that transaction is not
/// ready).
pub open spec fn next_task_spec(v: SchedulerView) -> (SchedulerView, SchedulerTask) {
    if v.halted {
        (v, SchedulerTask::Done)
    } else if v.validation_idx < v.execution_idx {
        let i = v.validation_idx;
        let w = SchedulerView { validation_idx: i + 1, ..v };
        match v.status[i as int] {
            TxnState::Executed(inc) => (w, SchedulerTask::ValidationTask(i as u32, inc, v.wave)),
            _ => (w, SchedulerTask::NoTask),
        }
    } else if v.execution_idx < v.status.len() {
        let i = v.execution_idx;
        match v.status[i as int] {
            TxnState::ReadyToExecute(inc) => (
                SchedulerView { execution_idx: i + 1, status: v.status.update(i as int, TxnState::Executing(inc)), ..v },
                SchedulerTask::ExecutionTask(i as u32, inc),
            ),
            _ => (SchedulerView { execution_idx: i + 1, ..v }, SchedulerTask::NoTask),
        }
    } else {
        (v, SchedulerTask::NoTask)
    }
}

/// A new wave, from which the transactions at `from` and above need a new
/// validation.
pub open spec fn revalidate_from(v: SchedulerView, from: int) -> SchedulerView {
    let wave = if v.wave < u64::MAX {
        (v.wave + 1) as u64
    } else {
        v.wave
    };
    SchedulerView {
        wave,
        validation_idx: if from < v.validation_idx {
            from as nat
        } else {
            v.validation_idx
        },
        required: Seq::new(v.required.len(), |j: int| if j >= from { wave } else { v.required[j] }),
        ..v
    }
}

/// Whether a transaction in state `s` waits for `dep`.
pub open spec fn waits_for(s: TxnState, dep: int) -> bool {
    s matches TxnState::Suspended(_, w) && w == dep
}

/// The first index from `from` on that waits for `dep`; the length where
/// none does.
pub open spec fn first_waiting(st: Seq<TxnState>, dep: int, from: int) -> int
    decreases st.len() - from,
{
    if from >= st.len() || from < 0 {
        st.len() as int
    } else if waits_for(st[from], dep) {
        from
    } else {
        first_waiting(st, dep, from + 1)
    }
}

/// The state after incarnation `inc` of `idx` executed: it is executed and
/// unvalidated; those that waited for it are ready again and may be
/// executed from the lowest of them on; where it wrote outside its previous
/// write set, those after it need a new validation.
pub open spec fn finish_execution_spec(v: SchedulerView, idx: int, inc: Incarnation, updates_outside: bool) -> SchedulerView {
    let low = first_waiting(v.status, idx, 0);
    let w = SchedulerView {
        status: Seq::new(v.status.len(), |j: int| if j == idx {
            TxnState::Executed(inc)
        } else if waits_for(v.status[j], idx) {
            TxnState::ReadyToExecute(incarnation_of(v.status[j]))
        } else {
            v.status[j]
        }),
        validated: v.validated.update(idx, None),
        execution_idx: if low < v.execution_idx {
            low as nat
        } else {
            v.execution_idx
        },
        ..v
    };
    if updates_outside {
        revalidate_from(w, idx + 1)
    } else {
        w
    }
}

/// The state after the aborted incarnation `inc` of `idx` gives way to the
/// next one: it may be executed from `idx` on, and those after it need a
/// new validation.
pub open spec fn finish_abort_spec(v: SchedulerView, idx: int, inc: Incarnation) -> SchedulerView {
    revalidate_from(
        SchedulerView {
            status: v.status.update(idx, TxnState::ReadyToExecute((inc + 1) as u32)),
            execution_idx: if idx < v.execution_idx {
                idx as nat
            } else {
                v.execution_idx
            },
            ..v
        },
        idx + 1,
    )
}

/// The state after `idx` passed a validation of wave `wave`: the latest
/// such wave is kept.
pub open spec fn validation_recorded(v: SchedulerView, idx: int, wave: Wave) -> SchedulerView {
    SchedulerView {
        validated: if v.validated[idx] is Some && v.validated[idx]->Some_0 >= wave {
            v.validated
        } else {
            v.validated.update(idx, Some(wave))
        },
        ..v
    }
}

/// Whether the transaction at the commit pointer may commit: it executed
/// and its current incarnation passed a validation that counts.
pub open spec fn commit_ready(v: SchedulerView) -> bool {
    &&& !v.halted
    &&& v.commit_idx < v.status.len()
    &&& v.status[v.commit_idx as int] is Executed
    &&& v.validated[v.commit_idx as int] is Some
    &&& v.validated[v.commit_idx as int]->Some_0 >= v.required[v.commit_idx as int]
}

/// The shape that every scheduler state has.
pub open spec fn view_wf(v: SchedulerView) -> bool {
    &&& prefix_committed(v)
    &&& v.execution_idx <= v.status.len()
    &&& v.validation_idx <= v.status.len()
    &&& v.validated.len() == v.status.len()
    &&& v.required.len() == v.status.len()
    &&& v.status.len() <= u32::MAX
}

pub struct Scheduler {
    status: Vec<TxnState>,
    execution_idx: usize,
    validation_idx: usize,
    validation_wave: Wave,
    validated_wave: Vec<Option<Wave>>,
    required_wave: Vec<Wave>,
    commit_idx: usize,
    halted: bool,
    commits_armed: bool,
}

impl View for Scheduler {
    type V = SchedulerView;

    closed spec fn view(&self) -> SchedulerView {
        SchedulerView {
            status: self.status@,
            execution_idx: self.execution_idx as nat,
            validation_idx: self.validation_idx as nat,
            wave: self.validation_wave,
            validated: self.validated_wave@,
            required: self.required_wave@,
            commit_idx: self.commit_idx as nat,
            halted: self.halted,
            armed: self.commits_armed,
        }
    }
}

impl Scheduler {
    pub closed spec fn wf(&self) -> bool {
        view_wf(self@)
    }

    pub proof fn lemma_wf(&self)
        requires
            self.wf(),
        ensures
            view_wf(self@),
    {
    }

    /// A scheduler for `n` transactions, each ready for incarnation 0.
    pub fn new(n: usize) -> (r: Scheduler)
        requires
            n <= u32::MAX,
        ensures
            r.wf(),
            r@ == (SchedulerView {
                status: Seq::new(n as nat, |i: int| TxnState::ReadyToExecute(0)),
                execution_idx: 0,
                validation_idx: 0,
                wave: 0,
                validated: Seq::new(n as nat, |i: int| None),
                required: Seq::new(n as nat, |i: int| 0),
                commit_idx: 0,
                halted: false,
                armed: false,
            }),
    {
        let mut status: Vec<TxnState> = Vec::new();
        let mut validated_wave: Vec<Option<Wave>> = Vec::new();
        let mut required_wave: Vec<Wave> = Vec::new();
        let mut i: usize = 0;
        while i < n
            invariant
                i <= n,
                status@.len() == i,
                validated_wave@.len() == i,
                required_wave@.len() == i,
                forall|j: int| 0 <= j < i ==> #[trigger] status@[j] == TxnState::ReadyToExecute(0),
                forall|j: int| 0 <= j < i ==> #[trigger] validated_wave@[j] is None,
                forall|j: int| 0 <= j < i ==> #[trigger] required_wave@[j] == 0,
            decreases n - i,
        {
            status.push(TxnState::ReadyToExecute(0));
            validated_wave.push(None);
            required_wave.push(0);
            i = i + 1;
        }
        let r = Scheduler {
            status,
            execution_idx: 0,
            validation_idx: 0,
            validation_wave: 0,
            validated_wave,
            required_wave,
            commit_idx: 0,
            halted: false,
            commits_armed: false,
        };
        assert(r@.status =~= Seq::new(n as nat, |i: int| TxnState::ReadyToExecute(0)));
        assert(r@.validated =~= Seq::new(n as nat, |i: int| None));
        assert(r@.required =~= Seq::new(n as nat, |i: int| 0));
        r
    }

    pub fn num_txns(&self) -> (r: usize)
        ensures
            r == self@.status.len(),
    {
        self.status.len()
    }

    pub fn commit_idx(&self) -> (r: usize)
        ensures
            r == self@.commit_idx,
    {
        self.commit_idx
    }

    pub fn status(&self, idx: usize) -> (r: TxnState)
        requires
            idx < self@.status.len(),
        ensures
            r == self@.status[idx as int],
    {
        self.status[idx]
    }

    pub fn is_halted(&self) -> (r: bool)
        ensures
            r == self@.halted,
    {
        self.halted
    }

    /// Hands out the next task (see `next_task_spec`).
    pub fn next_task(&mut self) -> (task: SchedulerTask)
        requires
            old(self).wf(),
        ensures
            final(self).wf(),
            (final(self)@, task) == next_task_spec(old(self)@),
            incarnations_advance(old(self)@, final(self)@),
            final(self)@.commit_idx == old(self)@.commit_idx,
            final(self)@.halted == old(self)@.halted,
    {
        if self.halted {
            return SchedulerTask::Done;
        }
        let n = self.status.len();
        if self.validation_idx < self.execution_idx {
            let i = self.validation_idx;
            self.validation_idx = i + 1;
            match self.status[i] {
                TxnState::Executed(inc) => SchedulerTask::ValidationTask(i as u32, inc, self.validation_wave),
                _ => SchedulerTask::NoTask,
            }
        } else if self.execution_idx < n {
            let i = self.execution_idx;
            self.execution_idx = i + 1;
            match self.status[i] {
                TxnState::ReadyToExecute(inc) => {
                    self.status.set(i, TxnState::Executing(inc));
                    SchedulerTask::ExecutionTask(i as u32, inc)
                },
                _ => SchedulerTask::NoTask,
            }
        } else {
            SchedulerTask::NoTask
        }
    }

    fn require_revalidation_from(&mut self, from: usize)
        requires
            old(self).wf(),
        ensures
            final(self).wf(),
            final(self)@ == revalidate_from(old(self)@, from as int),
    {
        if self.validation_wave < u64::MAX {
            self.validation_wave = self.validation_wave + 1;
        }
        let n = self.status.len();
        if from < self.validation_idx {
            self.validation_idx = from;
        }
        let ghost req0 = self.required_wave@;
        let ghost s0 = self@;
        let mut j = from;
        while j < n
            invariant
                view_wf(s0),
                from <= j,
                n == s0.status.len(),
                self@ == (SchedulerView { required: self.required_wave@, ..s0 }),
                n == self.required_wave@.len() == req0.len(),
                forall|x: int| 0 <= x < n ==> #[trigger] self.required_wave@[x] == if from <= x < j {
                    self.validation_wave
                } else {
                    req0[x]
                },
            decreases n - j,
        {
            self.required_wave.set(j, self.validation_wave);
            j = j + 1;
        }
        assert(self@.required =~= revalidate_from(old(self)@, from as int).required);
        assert(self@ =~= revalidate_from(old(self)@, from as int));
    }

    /// Records that incarnation `inc` of `idx` finished executing (see
    /// `finish_execution_spec`), and returns the validation of `idx`.
    pub fn finish_execution(&mut self, idx: usize, inc: Incarnation, updates_outside: bool) -> (task: SchedulerTask)
        requires
            old(self).wf(),
            idx < old(self)@.status.len(),
            old(self)@.status[idx as int] == TxnState::Executing(inc),
        ensures
            final(self).wf(),
            final(self)@ == finish_execution_spec(old(self)@, idx as int, inc, updates_outside),
            task == SchedulerTask::ValidationTask(idx as u32, inc, final(self)@.wave),
            incarnations_advance(old(self)@, final(self)@),
            final(self)@.commit_idx == old(self)@.commit_idx,
            final(self)@.halted == old(self)@.halted,
    {
        let ghost st0 = self.status@;
        let n = self.status.len();
        let mut j: usize = 0;
        let mut lowest = n;
        while j < n
            invariant
                n == self.status@.len() == st0.len(),
                idx < n,
                st0[idx as int] == TxnState::Executing(inc),
                j <= n,
                lowest <= n,
                lowest < n ==> lowest < j && waits_for(st0[lowest as int], idx as int),
                first_waiting(st0, idx as int, 0) == if lowest < n {
                    lowest as int
                } else {
                    first_waiting(st0, idx as int, j as int)
                },
                forall|x: int| 0 <= x < n ==> #[trigger] self.status@[x] == if x < j && waits_for(st0[x], idx as int) {
                    TxnState::ReadyToExecute(incarnation_of(st0[x]))
                } else {
                    st0[x]
                },
                self.validated_wave@ == old(self).validated_wave@,
                self.required_wave@ == old(self).required_wave@,
                self.execution_idx == old(self).execution_idx,
                self.validation_idx == old(self).validation_idx,
                self.validation_wave == old(self).validation_wave,
                self.commit_idx == old(self).commit_idx,
                self.halted == old(self).halted,
                self.commits_armed == old(self).commits_armed,
            decreases n - j,
        {
            match self.status[j] {
                TxnState::Suspended(a, w) => if w as usize == idx {
                    self.status.set(j, TxnState::ReadyToExecute(a));
                    if lowest == n {
                        lowest = j;
                    }
                },
                _ => {},
            }
            j = j + 1;
        }
        self.status.set(idx, TxnState::Executed(inc));
        self.validated_wave.set(idx, None);
        if lowest < self.execution_idx {
            self.execution_idx = lowest;
        }
        let ghost mid = finish_execution_spec(old(self)@, idx as int, inc, false);
        proof {
            assert(self@.status =~= mid.status);
            assert(self@ =~= mid);
            assert(prefix_committed(self@)) by {
                assert forall|i: int| 0 <= i < self@.status.len() implies ((#[trigger] self@.status[i]) is Committed <==> i < self@.commit_idx) by {
                    assert(old(self)@.status[i] == st0[i]);
                }
            }
        }
        if updates_outside {
            self.require_revalidation_from(idx + 1);
        }
        SchedulerTask::ValidationTask(idx as u32, inc, self.validation_wave)
    }

    /// Incarnation `inc` of `idx` met an estimate of `dep`: it waits until
    /// `dep` finishes an execution.
    pub fn suspend(&mut self, idx: usize, inc: Incarnation, dep: TxnIndex)
        requires
            old(self).wf(),
            idx < old(self)@.status.len(),
            old(self)@.status[idx as int] == TxnState::Executing(inc),
        ensures
            final(self).wf(),
            incarnations_advance(old(self)@, final(self)@),
            final(self)@ == (SchedulerView { status: old(self)@.status.update(idx as int, TxnState::Suspended(inc, dep)), ..old(self)@ }),
    {
        self.status.set(idx, TxnState::Suspended(inc, dep));
        assert(self@ =~= (SchedulerView { status: old(self)@.status.update(idx as int, TxnState::Suspended(inc, dep)), ..old(self)@ }));
    }

    /// Moves `Executed(inc)` of `idx` to `Aborting(inc)`; false (and no
    /// change) when `idx` is in any other state.
    pub fn try_abort(&mut self, idx: usize, inc: Incarnation) -> (r: bool)
        requires
            old(self).wf(),
            idx < old(self)@.status.len(),
        ensures
            final(self).wf(),
            incarnations_advance(old(self)@, final(self)@),
            r == (old(self)@.status[idx as int] == TxnState::Executed(inc)),
            r ==> final(self)@ == (SchedulerView { status: old(self)@.status.update(idx as int, TxnState::Aborting(inc)), ..old(self)@ }),
            !r ==> final(self)@ == old(self)@,
    {
        if self.status[idx] == TxnState::Executed(inc) {
            self.status.set(idx, TxnState::Aborting(inc));
            assert(self@ =~= (SchedulerView { status: old(self)@.status.update(idx as int, TxnState::Aborting(inc)), ..old(self)@ }));
            true
        } else {
            false
        }
    }

    /// Schedules the next incarnation of an aborted `idx`: it may be
    /// executed from `idx` on, and those after it need a new validation.
    /// False (and no change) where the incarnation number is exhausted.
    pub fn finish_abort(&mut self, idx: usize, inc: Incarnation) -> (r: bool)
        requires
            old(self).wf(),
            idx < old(self)@.status.len(),
            old(self)@.status[idx as int] == TxnState::Aborting(inc),
        ensures
            final(self).wf(),
            incarnations_advance(old(self)@, final(self)@),
            r == (inc < u32::MAX),
            r ==> final(self)@ == finish_abort_spec(old(self)@, idx as int, inc),
            !r ==> final(self)@ == old(self)@,
    {
        if inc == u32::MAX {
            return false;
        }
        self.status.set(idx, TxnState::ReadyToExecute(inc + 1));
        if idx < self.execution_idx {
            self.execution_idx = idx;
        }
        assert(prefix_committed(self@)) by {
            assert forall|i: int| 0 <= i < self@.status.len() implies ((#[trigger] self@.status[i]) is Committed <==> i < self@.commit_idx) by {
                if i != idx {
                    assert(self@.status[i] == old(self)@.status[i]);
                }
            }
        }
        self.require_revalidation_from(idx + 1);
        true
    }

    /// Records that `idx` passed a validation of wave `wave`.
    pub fn finish_validation(&mut self, idx: usize, wave: Wave)
        requires
            old(self).wf(),
            idx < old(self)@.status.len(),
        ensures
            final(self).wf(),
            incarnations_advance(old(self)@, final(self)@),
            final(self)@ == validation_recorded(old(self)@, idx as int, wave),
    {
        let better = match self.validated_wave[idx] {
            Some(w) => w < wave,
            None => true,
        };
        if better {
            self.validated_wave.set(idx, Some(wave));
        }
        assert(self@ =~= (SchedulerView {
            validated: if old(self)@.validated[idx as int] is Some && old(self)@.validated[idx as int]->Some_0 >= wave {
                old(self)@.validated
            } else {
                old(self)@.validated.update(idx as int, Some(wave))
            },
            ..old(self)@
        }));
    }

    /// Commits the transaction at the commit pointer where it is ready (see
    /// `commit_ready`): returns its index and incarnation.
    pub fn try_commit(&mut self) -> (r: Option<(TxnIndex, Incarnation)>)
        requires
            old(self).wf(),
        ensures
            final(self).wf(),
            incarnations_advance(old(self)@, final(self)@),
            final(self)@.halted == old(self)@.halted,
            r is Some <==> commit_ready(old(self)@),
            match r {
                Some((i, inc)) => i == old(self)@.commit_idx
                    && old(self)@.status[i as int] == TxnState::Executed(inc)
                    && final(self)@ == (SchedulerView {
                        status: old(self)@.status.update(i as int, TxnState::Committed(inc)),
                        commit_idx: (i + 1) as nat,
                        ..old(self)@
                    }),
                None => final(self)@ == old(self)@,
            },
    {
        if self.halted || self.commit_idx >= self.status.len() {
            return None;
        }
        let c = self.commit_idx;
        match self.status[c] {
            TxnState::Executed(inc) => {
                let ready = match self.validated_wave[c] {
                    Some(w) => w >= self.required_wave[c],
                    None => false,
                };
                if !ready {
                    return None;
                }
                self.status.set(c, TxnState::Committed(inc));
                self.commit_idx = c + 1;
                assert(prefix_committed(self@)) by {
                    assert forall|i: int| 0 <= i < self@.status.len() implies ((#[trigger] self@.status[i]) is Committed <==> i < self@.commit_idx) by {
                        if i != c {
                            assert(self@.status[i] == old(self)@.status[i]);
                        }
                    }
                }
                assert(self@ =~= (SchedulerView {
                    status: old(self)@.status.update(c as int, TxnState::Committed(inc)),
                    commit_idx: (c + 1) as nat,
                    ..old(self)@
                }));
                Some((c as u32, inc))
            },
            _ => None,
        }
    }

    /// Commits the transaction at the commit pointer whatever its state, for
    /// a run that finishes in place; returns the index and incarnation.
    pub fn force_commit(&mut self) -> (r: (TxnIndex, Incarnation))
        requires
            old(self).wf(),
            old(self)@.commit_idx < old(self)@.status.len(),
        ensures
            final(self).wf(),
            incarnations_advance(old(self)@, final(self)@),
            r.0 == old(self)@.commit_idx,
            r.1 == incarnation_of(old(self)@.status[r.0 as int]),
            final(self)@ == (SchedulerView {
                status: old(self)@.status.update(r.0 as int, TxnState::Committed(r.1)),
                commit_idx: (r.0 + 1) as nat,
                ..old(self)@
            }),
    {
        let c = self.commit_idx;
        let inc = match self.status[c] {
            TxnState::ReadyToExecute(i) => i,
            TxnState::Executing(i) => i,
            TxnState::Suspended(i, _) => i,
            TxnState::Executed(i) => i,
            TxnState::Aborting(i) => i,
            TxnState::Committed(i) => i,
        };
        self.status.set(c, TxnState::Committed(inc));
        self.commit_idx = c + 1;
        assert(prefix_committed(self@)) by {
            assert forall|i: int| 0 <= i < self@.status.len() implies ((#[trigger] self@.status[i]) is Committed <==> i < self@.commit_idx) by {
                if i != c {
                    assert(self@.status[i] == old(self)@.status[i]);
                }
            }
        }
        assert(self@ =~= (SchedulerView {
            status: old(self)@.status.update(c as int, TxnState::Committed(inc)),
            commit_idx: (c + 1) as nat,
            ..old(self)@
        }));
        (c as u32, inc)
    }

    /// Stops handing out work; true where this call did so.
    pub fn halt(&mut self) -> (r: bool)
        requires
            old(self).wf(),
        ensures
            final(self).wf(),
            incarnations_advance(old(self)@, final(self)@),
            r == !old(self)@.halted,
            final(self)@ == (SchedulerView { halted: true, ..old(self)@ }),
    {
        let r = !self.halted;
        self.halted = true;
        r
    }

    /// Notes that a validation passed, so commits may be ready.
    pub fn queueing_commits_arm(&mut self)
        requires
            old(self).wf(),
        ensures
            final(self).wf(),
            incarnations_advance(old(self)@, final(self)@),
            final(self)@ == (SchedulerView { armed: true, ..old(self)@ }),
    {
        self.commits_armed = true;
    }

    /// Elects the caller to coordinate commits where commits were armed,
    /// and disarms them.
    pub fn should_coordinate_commits(&mut self) -> (r: bool)
        requires
            old(self).wf(),
        ensures
            final(self).wf(),
            incarnations_advance(old(self)@, final(self)@),
            r == old(self)@.armed,
            final(self)@ == (SchedulerView { armed: false, ..old(self)@ }),
    {
        let r = self.commits_armed;
        self.commits_armed = false;
        r
    }
}

} // verus!
