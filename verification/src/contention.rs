//! Greedy list scheduling of a block's transactions by their account locks,
//! with schedule-derived conflict attribution.

pub use crate::range_report::{
    AccountConflictCount, BlockReport, ProgramConflictCount, RangeAccumulator, RangeReport,
};
use vstd::hash_set::StringHashSet;
use vstd::prelude::*;

verus! {

// ---------------------------------------------------------------------------
// Mathematical model
// ---------------------------------------------------------------------------

/// An account lock as a value: the account's text and whether it is written.
pub struct LockModel {
    pub account: Seq<char>,
    pub writable: bool,
}

/// A transaction as a value.
pub struct TxModel {
    pub signature: Seq<char>,
    pub tx_index: i64,
    pub program_ids: Seq<Seq<char>>,
    pub locks: Seq<LockModel>,
}

/// One rejection of a transaction by a step, on account of one lock.
pub struct ConflictModel {
    pub account: Seq<char>,
    pub writable: bool,
    pub program_ids: Seq<Seq<char>>,
}

/// A step of a schedule: the accounts it writes, the accounts it touches at
/// all, the positions (in the block) of its transactions and their signatures.
pub struct StepModel {
    pub written: Set<Seq<char>>,
    pub touched: Set<Seq<char>>,
    pub members: Seq<int>,
    pub signatures: Seq<Seq<char>>,
}

/// A schedule: its steps in order, and every conflict event in the order
/// the scheduler met them.
pub struct ScheduleModel {
    pub steps: Seq<StepModel>,
    pub conflicts: Seq<ConflictModel>,
}

/// The accounts that a list of locks names.
pub open spec fn lock_accounts(locks: Seq<LockModel>) -> Set<Seq<char>>
    decreases locks.len(),
{
    if locks.len() == 0 {
        Set::empty()
    } else {
        lock_accounts(locks.drop_last()).insert(locks.last().account)
    }
}

/// The accounts that a list of locks writes.
pub open spec fn written_accounts(locks: Seq<LockModel>) -> Set<Seq<char>>
    decreases locks.len(),
{
    if locks.len() == 0 {
        Set::empty()
    } else if locks.last().writable {
        written_accounts(locks.drop_last()).insert(locks.last().account)
    } else {
        written_accounts(locks.drop_last())
    }
}

/// A lock conflicts with a step when it writes an account the step touches,
/// or reads an account the step writes.
pub open spec fn lock_conflicts(lock: LockModel, step: StepModel) -> bool {
    if lock.writable {
        step.touched.contains(lock.account)
    } else {
        step.written.contains(lock.account)
    }
}

/// The locks of a transaction that conflict with a step, in lock order.
pub open spec fn conflicting_in(locks: Seq<LockModel>, step: StepModel) -> Seq<LockModel> {
    locks.filter(|l: LockModel| lock_conflicts(l, step))
}

/// The first step, from `k` on, that none of `locks` conflicts with; the
/// number of steps when there is none.
pub open spec fn first_fit_from(steps: Seq<StepModel>, locks: Seq<LockModel>, k: int) -> int
    decreases steps.len() - k,
{
    if k < 0 || k >= steps.len() {
        steps.len() as int
    } else if conflicting_in(locks, steps[k]).len() == 0 {
        k
    } else {
        first_fit_from(steps, locks, k + 1)
    }
}

/// The earliest step that a transaction with these locks fits into.
pub open spec fn first_fit(steps: Seq<StepModel>, locks: Seq<LockModel>) -> int {
    first_fit_from(steps, locks, 0)
}

/// The conflict event recorded for one rejecting lock of `tx`.
pub open spec fn event_for(tx: TxModel, lock: LockModel) -> ConflictModel {
    ConflictModel { account: lock.account, writable: lock.writable, program_ids: tx.program_ids }
}

/// The events recorded while `tx` is rejected by steps `0..upto`.
pub open spec fn rejection_events(tx: TxModel, steps: Seq<StepModel>, upto: int) -> Seq<
    ConflictModel,
>
    decreases upto,
{
    if upto <= 0 {
        seq![]
    } else {
        rejection_events(tx, steps, upto - 1) + conflicting_in(tx.locks, steps[upto - 1]).map_values(
            |l: LockModel| event_for(tx, l),
        )
    }
}

/// A step with no transaction in it.
pub open spec fn empty_step() -> StepModel {
    StepModel { written: Set::empty(), touched: Set::empty(), members: seq![], signatures: seq![] }
}

/// `step` once the transaction at block position `i` is placed in it.
pub open spec fn step_with(step: StepModel, tx: TxModel, i: int) -> StepModel {
    StepModel {
        written: step.written + written_accounts(tx.locks),
        touched: step.touched + lock_accounts(tx.locks),
        members: step.members.push(i),
        signatures: step.signatures.push(tx.signature),
    }
}

/// The schedule after the transaction at block position `i` is placed: into
/// the earliest step it fits, or into a new last step; every earlier step
/// that rejects it records one event per conflicting lock.
pub open spec fn place(model: ScheduleModel, tx: TxModel, i: int) -> ScheduleModel {
    let k = first_fit(model.steps, tx.locks);
    ScheduleModel {
        steps: if k < model.steps.len() {
            model.steps.update(k, step_with(model.steps[k], tx, i))
        } else {
            model.steps.push(step_with(empty_step(), tx, i))
        },
        conflicts: model.conflicts + rejection_events(tx, model.steps, k),
    }
}

/// The greedy schedule of a block: transactions are taken in the order given
/// and each is placed by `place`.
pub open spec fn schedule_model(txs: Seq<TxModel>) -> ScheduleModel
    decreases txs.len(),
{
    if txs.len() == 0 {
        ScheduleModel { steps: seq![], conflicts: seq![] }
    } else {
        place(schedule_model(txs.drop_last()), txs.last(), txs.len() - 1)
    }
}

/// The signatures of each step of a schedule.
pub open spec fn step_signatures(model: ScheduleModel) -> Seq<Seq<Seq<char>>> {
    model.steps.map_values(|s: StepModel| s.signatures)
}

// ---------------------------------------------------------------------------
// Executable types
// ---------------------------------------------------------------------------

#[derive(Clone, Debug, PartialEq)]
pub struct AccountLock {
    pub account_pubkey: String,
    pub is_writable: bool,
}

impl View for AccountLock {
    type V = LockModel;

    open spec fn view(&self) -> LockModel {
        LockModel { account: self.account_pubkey@, writable: self.is_writable }
    }
}

#[derive(Clone, Debug)]
pub struct Transaction {
    pub signature: String,
    pub tx_index: i64,
    pub program_ids: Vec<String>,
    pub locks: Vec<AccountLock>,
}

impl View for Transaction {
    type V = TxModel;

    open spec fn view(&self) -> TxModel {
        TxModel {
            signature: self.signature@,
            tx_index: self.tx_index,
            program_ids: self.program_ids.deep_view(),
            locks: self.locks@.map_values(|l: AccountLock| l@),
        }
    }
}

/// One rejection: a transaction couldn't go in a step because of this lock.
#[derive(Clone, Debug)]
pub struct ConflictEvent {
    pub account_pubkey: String,
    pub is_writable: bool,
    pub program_ids: Vec<String>,
}

impl View for ConflictEvent {
    type V = ConflictModel;

    open spec fn view(&self) -> ConflictModel {
        ConflictModel {
            account: self.account_pubkey@,
            writable: self.is_writable,
            program_ids: self.program_ids.deep_view(),
        }
    }
}

/// A block's schedule: each step's signatures, and every conflict event.
pub struct Schedule {
    pub steps: Vec<Vec<String>>,  // signatures, in placement order, per step
    pub conflicts: Vec<ConflictEvent>,
}

impl Schedule {
    /// The signatures of each step.
    pub open spec fn step_views(&self) -> Seq<Seq<Seq<char>>> {
        self.steps@.map_values(|s: Vec<String>| s.deep_view())
    }

    /// The conflict events as values.
    pub open spec fn conflict_views(&self) -> Seq<ConflictModel> {
        self.conflicts@.map_values(|e: ConflictEvent| e@)
    }
}

/// The transactions of a slice as values.
pub open spec fn tx_views(txs: Seq<Transaction>) -> Seq<TxModel> {
    txs.map_values(|t: Transaction| t@)
}

/// The locks of a slice as values.
pub open spec fn lock_views(locks: Seq<AccountLock>) -> Seq<LockModel> {
    locks.map_values(|l: AccountLock| l@)
}

/// A copy of a list of strings.
pub fn clone_strings(v: &Vec<String>) -> (res: Vec<String>)
    ensures
        res.deep_view() == v.deep_view(),
{
    let mut res: Vec<String> = Vec::new();
    let mut i: usize = 0;
    while i < v.len()
        invariant
            i <= v.len(),
            res@.len() == i,
            forall|j: int| 0 <= j < i ==> #[trigger] res@[j]@ == v@[j]@,
        decreases v.len() - i,
    {
        res.push(v[i].clone());
        i += 1;
    }
    assert(res.deep_view() =~= v.deep_view());
    res
}

struct StepState {
    written: StringHashSet,
    touched: StringHashSet,
    signatures: Vec<String>,
}

impl StepState {
    /// Whether this executable step holds exactly the model step's sets and
    /// signatures.
    spec fn matches(&self, m: StepModel) -> bool {
        &&& self.written@ == m.written
        &&& self.touched@ == m.touched
        &&& self.signatures.deep_view() == m.signatures
    }

    /// Every account the step writes is one it touches.
    spec fn wf(&self) -> bool {
        self.written@.subset_of(self.touched@)
    }

    fn new() -> (res: Self)
        ensures
            res.matches(empty_step()),
            res.wf(),
    {
        let res = Self {
            written: StringHashSet::new(),
            touched: StringHashSet::new(),
            signatures: Vec::new(),
        };
        assert(res.signatures.deep_view() =~= Seq::<Seq<char>>::empty());
        res
    }

    fn conflicting_locks<'a>(&self, locks: &'a [AccountLock]) -> (res: Vec<&'a AccountLock>)
        ensures
            res@.map_values(|l: &AccountLock| l@) == conflicting_in(
                lock_views(locks@),
                StepModel {
                    written: self.written@,
                    touched: self.touched@,
                    members: seq![],
                    signatures: seq![],
                },
            ),
    {
        let ghost step = StepModel {
            written: self.written@,
            touched: self.touched@,
            members: seq![],
            signatures: seq![],
        };
        let ghost all = lock_views(locks@);
        let ghost pred = |l: LockModel| lock_conflicts(l, step);
        let mut res: Vec<&'a AccountLock> = Vec::new();
        let mut i: usize = 0;
        while i < locks.len()
            invariant
                i <= locks.len(),
                all == lock_views(locks@),
                pred == (|l: LockModel| lock_conflicts(l, step)),
                step.written == self.written@,
                step.touched == self.touched@,
                res@.map_values(|l: &AccountLock| l@) == all.take(i as int).filter(pred),
            decreases locks.len() - i,
        {
            let lock = &locks[i];
            let hit = if lock.is_writable {
                self.touched.contains(lock.account_pubkey.as_str())
            } else {
                self.written.contains(lock.account_pubkey.as_str())
            };
            proof {
                reveal_with_fuel(Seq::<_>::filter, 1);
                assert(all.take(i + 1).drop_last() =~= all.take(i as int));
                assert(all.take(i + 1).last() == lock@);
            }
            if hit {
                res.push(lock);
            }
            assert(res@.map_values(|l: &AccountLock| l@) =~= all.take(i + 1).filter(pred));
            i += 1;
        }
        assert(all.take(locks.len() as int) =~= all);
        res
    }

    fn add(&mut self, signature: &str, locks: &[AccountLock])
        ensures
            old(self).wf() ==> final(self).wf(),
            final(self).written@ == old(self).written@ + written_accounts(lock_views(locks@)),
            final(self).touched@ == old(self).touched@ + lock_accounts(lock_views(locks@)),
            final(self).signatures.deep_view() == old(self).signatures.deep_view().push(
                signature@,
            ),
    {
        let ghost all = lock_views(locks@);
        let mut i: usize = 0;
        while i < locks.len()
            invariant
                i <= locks.len(),
                all == lock_views(locks@),
                self.written@ == old(self).written@ + written_accounts(all.take(i as int)),
                self.touched@ == old(self).touched@ + lock_accounts(all.take(i as int)),
                self.signatures == old(self).signatures,
            decreases locks.len() - i,
        {
            let lock = &locks[i];
            proof {
                assert(all.take(i + 1).drop_last() =~= all.take(i as int));
                assert(all.take(i + 1).last() == lock@);
            }
            self.touched.insert(lock.account_pubkey.clone());
            if lock.is_writable {
                self.written.insert(lock.account_pubkey.clone());
            }
            assert(self.touched@ =~= old(self).touched@ + lock_accounts(all.take(i + 1)));
            assert(self.written@ =~= old(self).written@ + written_accounts(all.take(i + 1)));
            i += 1;
        }
        assert(all.take(locks.len() as int) =~= all);
        proof {
            lemma_written_within_locked(all);
        }
        let ghost before = self.signatures.deep_view();
        self.signatures.push(signature.to_owned());
        assert(self.signatures.deep_view() =~= before.push(signature@));
    }
}

/// A list of locks writes only accounts it names.
pub proof fn lemma_written_within_locked(locks: Seq<LockModel>)
    ensures
        written_accounts(locks).subset_of(lock_accounts(locks)),
    decreases locks.len(),
{
    if locks.len() > 0 {
        lemma_written_within_locked(locks.drop_last());
    }
}

/// The rejections depend on a step only through the accounts it writes and
/// touches.
pub proof fn lemma_conflicting_by_sets(locks: Seq<LockModel>, a: StepModel, b: StepModel)
    requires
        a.written == b.written,
        a.touched == b.touched,
    ensures
        conflicting_in(locks, a) == conflicting_in(locks, b),
{
    assert((|l: LockModel| lock_conflicts(l, a)) =~= (|l: LockModel| lock_conflicts(l, b)));
}

/// Heuristic, not the validator's real schedule. Callers must pass
/// transactions in tx_index order.
pub fn schedule_block(transactions: &[Transaction]) -> (res: Schedule)
    ensures
        res.step_views() == step_signatures(schedule_model(tx_views(transactions@))),
        res.conflict_views() == schedule_model(tx_views(transactions@)).conflicts,
{
    let ghost all = tx_views(transactions@);
    let mut steps: Vec<StepState> = Vec::new();
    let mut conflicts: Vec<ConflictEvent> = Vec::new();
    let mut t: usize = 0;
    while t < transactions.len()
        invariant
            all == tx_views(transactions@),
            t <= transactions.len(),
            steps@.len() == schedule_model(all.take(t as int)).steps.len(),
            forall|k: int|
                0 <= k < steps@.len() ==> #[trigger] steps@[k].matches(
                    schedule_model(all.take(t as int)).steps[k],
                ),
            conflicts@.map_values(|e: ConflictEvent| e@) == schedule_model(
                all.take(t as int),
            ).conflicts,
        decreases transactions.len() - t,
    {
        let txn = &transactions[t];
        let ghost model = schedule_model(all.take(t as int));
        let ghost tx = all[t as int];
        assert(all.take(t + 1).drop_last() =~= all.take(t as int));
        assert(tx.locks =~= lock_views(txn.locks@));
        let mut i: usize = 0;
        let mut fits = false;
        while !fits && i < steps.len()
            invariant
                all == tx_views(transactions@),
                t < transactions.len(),
                txn == transactions@[t as int],
                tx == all[t as int],
                tx.locks == lock_views(txn.locks@),
                model == schedule_model(all.take(t as int)),
                steps@.len() == model.steps.len(),
                forall|k: int| 0 <= k < steps@.len() ==> #[trigger] steps@[k].matches(model.steps[k]),
                i <= steps@.len(),
                fits ==> i < steps@.len() && first_fit(model.steps, tx.locks) == i,
                !fits ==> first_fit(model.steps, tx.locks) == first_fit_from(
                    model.steps,
                    tx.locks,
                    i as int,
                ),
                conflicts@.map_values(|e: ConflictEvent| e@) == model.conflicts + rejection_events(
                    tx,
                    model.steps,
                    i as int,
                ),
            decreases steps@.len() - i, (if fits { 0int } else { 1int }),
        {
            let conflicting = steps[i].conflicting_locks(txn.locks.as_slice());
            proof {
                assert(steps@[i as int].matches(model.steps[i as int]));
                lemma_conflicting_by_sets(
                    tx.locks,
                    model.steps[i as int],
                    StepModel {
                        written: steps@[i as int].written@,
                        touched: steps@[i as int].touched@,
                        members: seq![],
                        signatures: seq![],
                    },
                );
            }
            let ghost hits = conflicting_in(tx.locks, model.steps[i as int]);
            if conflicting.len() == 0 {
                fits = true;
            } else {
                let ghost before = conflicts@.map_values(|e: ConflictEvent| e@);
                let mut j: usize = 0;
                while j < conflicting.len()
                    invariant
                        j <= conflicting@.len(),
                        conflicting@.map_values(|l: &AccountLock| l@) == hits,
                        tx == all[t as int],
                        all == tx_views(transactions@),
                        txn == transactions@[t as int],
                        t < transactions.len(),
                        conflicts@.map_values(|e: ConflictEvent| e@) == before + hits.take(
                            j as int,
                        ).map_values(|l: LockModel| event_for(tx, l)),
                    decreases conflicting@.len() - j,
                {
                    let lock = conflicting[j];
                    let event = ConflictEvent {
                        account_pubkey: lock.account_pubkey.clone(),
                        is_writable: lock.is_writable,
                        program_ids: clone_strings(&txn.program_ids),
                    };
                    assert(hits[j as int] == lock@);
                    assert(tx.program_ids == txn.program_ids.deep_view());
                    assert(event@ == event_for(tx, hits[j as int]));
                    let ghost prev = conflicts@;
                    let ghost ev = event@;
                    conflicts.push(event);
                    assert(conflicts@.map_values(|e: ConflictEvent| e@) =~= prev.map_values(
                        |e: ConflictEvent| e@,
                    ).push(ev));
                    assert(hits.take(j + 1).map_values(|l: LockModel| event_for(tx, l))
                        =~= hits.take(j as int).map_values(|l: LockModel| event_for(tx, l)).push(
                        ev,
                    ));
                    assert(conflicts@.map_values(|e: ConflictEvent| e@) =~= before + hits.take(
                        j + 1,
                    ).map_values(|l: LockModel| event_for(tx, l)));
                    j += 1;
                }
                assert(hits.take(conflicting@.len() as int) =~= hits);
                i += 1;
            }
        }
        let ghost k = first_fit(model.steps, tx.locks);
        assert(k == i as int) by {
            if !fits {
                assert(first_fit_from(model.steps, tx.locks, i as int) == model.steps.len());
            }
        }
        let ghost next = place(model, tx, t as int);
        assert(next == schedule_model(all.take(t + 1)));
        assert(tx.signature == txn.signature@);
        let ghost old_steps = steps@;
        if fits {
            assert(old_steps[i as int].matches(model.steps[i as int]));
            steps[i].add(txn.signature.as_str(), txn.locks.as_slice());
            assert(steps@.len() == old_steps.len());
            assert(steps@[i as int].matches(next.steps[i as int]));
            assert forall|k: int| 0 <= k < steps@.len() implies #[trigger] steps@[k].matches(
                next.steps[k],
            ) by {
                if k != i as int {
                    assert(steps@[k] == old_steps[k]);
                    assert(old_steps[k].matches(model.steps[k]));
                }
            }
        } else {
            let mut fresh = StepState::new();
            fresh.add(txn.signature.as_str(), txn.locks.as_slice());
            steps.push(fresh);
            assert(steps@[i as int].matches(next.steps[i as int]));
            assert forall|k: int| 0 <= k < steps@.len() implies #[trigger] steps@[k].matches(
                next.steps[k],
            ) by {
                if k != i as int {
                    assert(steps@[k] == old_steps[k]);
                    assert(old_steps[k].matches(model.steps[k]));
                }
            }
        }
        t += 1;
    }
    assert(all.take(transactions.len() as int) =~= all);
    let ghost model = schedule_model(all);
    let mut out: Vec<Vec<String>> = Vec::new();
    let mut k: usize = 0;
    while k < steps.len()
        invariant
            k <= steps@.len(),
            steps@.len() == model.steps.len(),
            forall|m: int| 0 <= m < steps@.len() ==> #[trigger] steps@[m].matches(model.steps[m]),
            out@.len() == k,
            forall|m: int| 0 <= m < k ==> #[trigger] out@[m].deep_view() == model.steps[m].signatures,
        decreases steps@.len() - k,
    {
        assert(steps@[k as int].matches(model.steps[k as int]));
        out.push(clone_strings(&steps[k].signatures));
        k += 1;
    }
    let res = Schedule { steps: out, conflicts };
    assert(res.step_views() =~= step_signatures(model));
    res
}

} // verus!
