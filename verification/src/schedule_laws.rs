//! Laws of the greedy schedule: its steps are conflict-free, it places each
//! transaction exactly once and in block order, each transaction lands in
//! the earliest step it fits, the step widths add up to the block, later
//! transactions never move earlier ones, `tx_index` is never read, and
//! whether two transactions conflict does not depend on their order.

use crate::contention::{
    conflicting_in, empty_step, event_for, lemma_conflicting_by_sets, first_fit, first_fit_from, lock_accounts, lock_conflicts,
    place, rejection_events, schedule_model, step_with, written_accounts, LockModel, ScheduleModel,
    ConflictModel, StepModel, TxModel,
};
use vstd::prelude::*;

verus! {

/// A transaction names an account in one of its locks.
pub open spec fn tx_touches(tx: TxModel, a: Seq<char>) -> bool {
    exists|j: int| #![trigger tx.locks[j]] 0 <= j < tx.locks.len() && tx.locks[j].account == a
}

/// A transaction holds a write lock on an account.
pub open spec fn tx_writes(tx: TxModel, a: Seq<char>) -> bool {
    exists|j: int|
        #![trigger tx.locks[j]]
        0 <= j < tx.locks.len() && tx.locks[j].account == a && tx.locks[j].writable
}

/// Two transactions conflict when they lock a common account and at least
/// one of the two locks writes it.
pub open spec fn txs_conflict(a: TxModel, b: TxModel) -> bool {
    exists|x: int, y: int|
        #![trigger a.locks[x], b.locks[y]]
        0 <= x < a.locks.len() && 0 <= y < b.locks.len() && a.locks[x].account
            == b.locks[y].account && (a.locks[x].writable || b.locks[y].writable)
}

/// The transaction at block position `i` is the `p`-th member of step `k`.
pub open spec fn placed_at(model: ScheduleModel, i: int, k: int, p: int) -> bool {
    &&& 0 <= k < model.steps.len()
    &&& 0 <= p < model.steps[k].members.len()
    &&& model.steps[k].members[p] == i
}

/// The `p`-th member of step `k` conflicts with a member of step `j` that
/// was placed before it.
pub open spec fn blocked_by(txs: Seq<TxModel>, m: ScheduleModel, k: int, p: int, j: int) -> bool {
    exists|q: int|
        #![trigger m.steps[j].members[q]]
        0 <= q < m.steps[j].members.len() && m.steps[j].members[q] < m.steps[k].members[p]
            && txs_conflict(txs[m.steps[k].members[p]], txs[m.steps[j].members[q]])
}

/// The transaction at block position `i` is in some step.
pub open spec fn is_placed(model: ScheduleModel, i: int) -> bool {
    exists|k: int, p: int| #[trigger] placed_at(model, i, k, p)
}

proof fn lemma_filter_empty_iff<A>(s: Seq<A>, pred: spec_fn(A) -> bool)
    ensures
        s.filter(pred).len() == 0 <==> forall|i: int| 0 <= i < s.len() ==> !pred(#[trigger] s[i]),
    decreases s.len(),
{
    reveal_with_fuel(Seq::<_>::filter, 1);
    if s.len() > 0 {
        lemma_filter_empty_iff(s.drop_last(), pred);
        s.drop_last().lemma_filter_len(pred);
        if s.filter(pred).len() == 0 {
            assert forall|i: int| 0 <= i < s.len() implies !pred(#[trigger] s[i]) by {
                if i < s.len() - 1 {
                    assert(s.drop_last()[i] == s[i]);
                }
            }
        }
        if forall|i: int| 0 <= i < s.len() ==> !pred(#[trigger] s[i]) {
            assert forall|i: int| 0 <= i < s.drop_last().len() implies !pred(
                #[trigger] s.drop_last()[i],
            ) by {
                assert(s.drop_last()[i] == s[i]);
            }
            assert(!pred(s[s.len() - 1]));
        }
    }
}

proof fn lemma_lock_sets(locks: Seq<LockModel>, a: Seq<char>)
    ensures
        lock_accounts(locks).contains(a) <==> exists|j: int|
            #![trigger locks[j]]
            0 <= j < locks.len() && locks[j].account == a,
        written_accounts(locks).contains(a) <==> exists|j: int|
            #![trigger locks[j]]
            0 <= j < locks.len() && locks[j].account == a && locks[j].writable,
    decreases locks.len(),
{
    if locks.len() > 0 {
        let d = locks.drop_last();
        lemma_lock_sets(d, a);
        if exists|j: int| #![trigger locks[j]] 0 <= j < locks.len() && locks[j].account == a {
            let j = choose|j: int| #![trigger locks[j]] 0 <= j < locks.len() && locks[j].account == a;
            if j < locks.len() - 1 {
                assert(d[j] == locks[j]);
            }
        }
        if exists|j: int|
            #![trigger locks[j]]
            0 <= j < locks.len() && locks[j].account == a && locks[j].writable {
            let j = choose|j: int|
                #![trigger locks[j]]
                0 <= j < locks.len() && locks[j].account == a && locks[j].writable;
            if j < locks.len() - 1 {
                assert(d[j] == locks[j]);
            }
        }
        if exists|j: int| #![trigger d[j]] 0 <= j < d.len() && d[j].account == a {
            let j = choose|j: int| #![trigger d[j]] 0 <= j < d.len() && d[j].account == a;
            assert(locks[j] == d[j]);
        }
        if exists|j: int| #![trigger d[j]] 0 <= j < d.len() && d[j].account == a && d[j].writable {
            let j = choose|j: int|
                #![trigger d[j]]
                0 <= j < d.len() && d[j].account == a && d[j].writable;
            assert(locks[j] == d[j]);
        }
    }
}

proof fn lemma_first_fit(steps: Seq<StepModel>, locks: Seq<LockModel>, k: int)
    requires
        0 <= k <= steps.len(),
    ensures
        k <= first_fit_from(steps, locks, k) <= steps.len(),
        first_fit_from(steps, locks, k) < steps.len() ==> conflicting_in(
            locks,
            steps[first_fit_from(steps, locks, k)],
        ).len() == 0,
        forall|j: int|
            k <= j < first_fit_from(steps, locks, k) ==> conflicting_in(
                locks,
                #[trigger] steps[j],
            ).len() > 0,
    decreases steps.len() - k,
{
    if k < steps.len() && conflicting_in(locks, steps[k]).len() != 0 {
        lemma_first_fit(steps, locks, k + 1);
    }
}

/// What every step of a schedule of the first `n` transactions satisfies.
pub open spec fn step_inv(txs: Seq<TxModel>, n: int, s: StepModel) -> bool {
    &&& s.members.len() == s.signatures.len()
    &&& forall|p: int|
        0 <= p < s.members.len() ==> 0 <= #[trigger] s.members[p] < n && s.signatures[p]
            == txs[s.members[p]].signature
    &&& forall|p: int, q: int|
        0 <= p < q < s.members.len() ==> #[trigger] s.members[p] < #[trigger] s.members[q]
    &&& forall|a: Seq<char>|
        #[trigger] s.written.contains(a) <==> exists|p: int|
            0 <= p < s.members.len() && tx_writes(txs[#[trigger] s.members[p]], a)
    &&& forall|a: Seq<char>|
        #[trigger] s.touched.contains(a) <==> exists|p: int|
            0 <= p < s.members.len() && tx_touches(txs[#[trigger] s.members[p]], a)
    &&& forall|p: int, q: int|
        0 <= p < s.members.len() && 0 <= q < s.members.len() && p != q ==> !txs_conflict(
            txs[#[trigger] s.members[p]],
            txs[#[trigger] s.members[q]],
        )
}

/// What a schedule of the first `n` transactions satisfies as a whole.
pub open spec fn schedule_inv(txs: Seq<TxModel>, n: int, m: ScheduleModel) -> bool {
    &&& forall|k: int| 0 <= k < m.steps.len() ==> step_inv(txs, n, #[trigger] m.steps[k])
    &&& forall|i: int| 0 <= i < n ==> #[trigger] is_placed(m, i)
    &&& forall|i: int, k1: int, p1: int, k2: int, p2: int|
        #[trigger] placed_at(m, i, k1, p1) && #[trigger] placed_at(m, i, k2, p2) ==> k1 == k2
            && p1 == p2
    &&& forall|k: int, p: int, j: int|
        0 <= j < k < m.steps.len() && 0 <= p < m.steps[k].members.len() ==> #[trigger] blocked_by(
            txs,
            m,
            k,
            p,
            j,
        )
}

/// A transaction whose locks all pass a step conflicts with none of its
/// members.
proof fn lemma_fit_no_conflict(txs: Seq<TxModel>, n: int, s: StepModel, tx: TxModel, p: int)
    requires
        step_inv(txs, n, s),
        0 <= p < s.members.len(),
        conflicting_in(tx.locks, s).len() == 0,
    ensures
        !txs_conflict(tx, txs[s.members[p]]),
        !txs_conflict(txs[s.members[p]], tx),
{
    let other = txs[s.members[p]];
    let pred = |l: LockModel| lock_conflicts(l, s);
    lemma_filter_empty_iff(tx.locks, pred);
    if txs_conflict(tx, other) {
        let (x, y) = choose|x: int, y: int|
            #![trigger tx.locks[x], other.locks[y]]
            0 <= x < tx.locks.len() && 0 <= y < other.locks.len() && tx.locks[x].account
                == other.locks[y].account && (tx.locks[x].writable || other.locks[y].writable);
        let a = tx.locks[x].account;
        assert(tx_touches(other, a));
        assert(s.touched.contains(a));
        if !tx.locks[x].writable {
            assert(tx_writes(other, a));
            assert(s.written.contains(a));
        }
        assert(pred(tx.locks[x]));
    }
    if txs_conflict(other, tx) {
        let (y, x) = choose|y: int, x: int|
            #![trigger other.locks[y], tx.locks[x]]
            0 <= y < other.locks.len() && 0 <= x < tx.locks.len() && other.locks[y].account
                == tx.locks[x].account && (other.locks[y].writable || tx.locks[x].writable);
        let a = tx.locks[x].account;
        assert(tx_touches(other, a));
        assert(s.touched.contains(a));
        if !tx.locks[x].writable {
            assert(tx_writes(other, a));
            assert(s.written.contains(a));
        }
        assert(pred(tx.locks[x]));
    }
}

/// A transaction rejected by a step conflicts with one of its members.
proof fn lemma_reject_has_witness(txs: Seq<TxModel>, n: int, s: StepModel, tx: TxModel)
    requires
        step_inv(txs, n, s),
        conflicting_in(tx.locks, s).len() > 0,
    ensures
        exists|q: int|
            #![trigger s.members[q]]
            0 <= q < s.members.len() && txs_conflict(tx, txs[s.members[q]]),
{
    let pred = |l: LockModel| lock_conflicts(l, s);
    lemma_filter_empty_iff(tx.locks, pred);
    let x = choose|x: int| 0 <= x < tx.locks.len() && pred(#[trigger] tx.locks[x]);
    let l = tx.locks[x];
    if l.writable {
        assert(s.touched.contains(l.account));
        let q = choose|q: int|
            0 <= q < s.members.len() && tx_touches(txs[#[trigger] s.members[q]], l.account);
        let other = txs[s.members[q]];
        let y = choose|y: int| #![trigger other.locks[y]] 0 <= y < other.locks.len() && other.locks[y].account == l.account;
        assert(tx.locks[x] == l && other.locks[y].account == l.account);
        assert(txs_conflict(tx, other));
    } else {
        assert(s.written.contains(l.account));
        let q = choose|q: int|
            0 <= q < s.members.len() && tx_writes(txs[#[trigger] s.members[q]], l.account);
        let other = txs[s.members[q]];
        let y = choose|y: int|
            #![trigger other.locks[y]]
            0 <= y < other.locks.len() && other.locks[y].account == l.account
                && other.locks[y].writable;
        assert(tx.locks[x] == l && other.locks[y].account == l.account);
        assert(txs_conflict(tx, other));
    }
}

proof fn lemma_step_inv_grow(txs: Seq<TxModel>, n: int, s: StepModel)
    requires
        step_inv(txs, n, s),
    ensures
        step_inv(txs, n + 1, s),
{
}

proof fn lemma_empty_step_fits(txs: Seq<TxModel>, n: int, tx: TxModel)
    ensures
        step_inv(txs, n, empty_step()),
        conflicting_in(tx.locks, empty_step()).len() == 0,
{
    let pred = |l: LockModel| lock_conflicts(l, empty_step());
    lemma_filter_empty_iff(tx.locks, pred);
}

proof fn lemma_step_with_inv(txs: Seq<TxModel>, n: int, s: StepModel)
    requires
        0 <= n < txs.len(),
        step_inv(txs, n, s),
        conflicting_in(txs[n].locks, s).len() == 0,
    ensures
        step_inv(txs, n + 1, step_with(s, txs[n], n)),
{
    let tx = txs[n];
    let t = step_with(s, tx, n);
    let len = s.members.len() as int;
    assert(t.members[len] == n);
    assert forall|p: int| 0 <= p < len implies t.members[p] == s.members[p] by {}
    assert forall|a: Seq<char>| #[trigger] t.written.contains(a) <==> exists|p: int|
        0 <= p < t.members.len() && tx_writes(txs[#[trigger] t.members[p]], a) by {
        lemma_lock_sets(tx.locks, a);
        if t.written.contains(a) {
            if s.written.contains(a) {
                let p = choose|p: int|
                    0 <= p < s.members.len() && tx_writes(txs[#[trigger] s.members[p]], a);
                assert(t.members[p] == s.members[p]);
            } else {
                assert(tx_writes(txs[t.members[len]], a));
            }
        }
        if exists|p: int| 0 <= p < t.members.len() && tx_writes(txs[#[trigger] t.members[p]], a) {
            let p = choose|p: int|
                0 <= p < t.members.len() && tx_writes(txs[#[trigger] t.members[p]], a);
            if p < len {
                assert(t.members[p] == s.members[p]);
                assert(s.written.contains(a));
            }
        }
    }
    assert forall|a: Seq<char>| #[trigger] t.touched.contains(a) <==> exists|p: int|
        0 <= p < t.members.len() && tx_touches(txs[#[trigger] t.members[p]], a) by {
        lemma_lock_sets(tx.locks, a);
        if t.touched.contains(a) {
            if s.touched.contains(a) {
                let p = choose|p: int|
                    0 <= p < s.members.len() && tx_touches(txs[#[trigger] s.members[p]], a);
                assert(t.members[p] == s.members[p]);
            } else {
                assert(tx_touches(txs[t.members[len]], a));
            }
        }
        if exists|p: int| 0 <= p < t.members.len() && tx_touches(txs[#[trigger] t.members[p]], a) {
            let p = choose|p: int|
                0 <= p < t.members.len() && tx_touches(txs[#[trigger] t.members[p]], a);
            if p < len {
                assert(t.members[p] == s.members[p]);
                assert(s.touched.contains(a));
            }
        }
    }
    assert forall|p: int, q: int|
        0 <= p < t.members.len() && 0 <= q < t.members.len() && p != q implies !txs_conflict(
        txs[#[trigger] t.members[p]],
        txs[#[trigger] t.members[q]],
    ) by {
        if p == len {
            lemma_fit_no_conflict(txs, n, s, tx, q);
        } else if q == len {
            lemma_fit_no_conflict(txs, n, s, tx, p);
        } else {
            assert(t.members[p] == s.members[p] && t.members[q] == s.members[q]);
        }
    }
    assert forall|p: int, q: int| 0 <= p < q < t.members.len() implies #[trigger] t.members[p]
        < #[trigger] t.members[q] by {
        if q < len {
            assert(t.members[p] == s.members[p] && t.members[q] == s.members[q]);
        }
    }
}

/// The invariant holds of the schedule of every prefix of a block.
proof fn lemma_schedule_inv(txs: Seq<TxModel>, n: int)
    requires
        0 <= n <= txs.len(),
    ensures
        schedule_inv(txs, n, schedule_model(txs.take(n))),
    decreases n,
{
    if n == 0 {
        assert(txs.take(0).len() == 0);
    } else {
        let i = n - 1;
        lemma_schedule_inv(txs, i);
        let m = schedule_model(txs.take(i));
        assert(txs.take(n).drop_last() =~= txs.take(i));
        assert(txs.take(n).last() == txs[i]);
        let tx = txs[i];
        let m2 = place(m, tx, i);
        assert(schedule_model(txs.take(n)) == m2);
        let f = first_fit(m.steps, tx.locks);
        lemma_first_fit(m.steps, tx.locks, 0);
        let old_step = if f < m.steps.len() { m.steps[f] } else { empty_step() };
        lemma_empty_step_fits(txs, i, tx);
        assert(step_inv(txs, i, old_step));
        lemma_step_with_inv(txs, i, old_step);
        let slot = old_step.members.len() as int;
        assert(m2.steps[f] == step_with(old_step, tx, i));
        assert forall|k: int| 0 <= k < m2.steps.len() implies step_inv(
            txs,
            n,
            #[trigger] m2.steps[k],
        ) by {
            if k != f {
                assert(m2.steps[k] == m.steps[k]);
                lemma_step_inv_grow(txs, i, m.steps[k]);
            }
        }
        // old slots keep their transactions
        assert forall|k: int, p: int| 0 <= k < m.steps.len() && 0 <= p < m.steps[k].members.len()
            implies #[trigger] m2.steps[k].members[p] == m.steps[k].members[p] by {
            if k == f {
                assert(m2.steps[k].members == m.steps[k].members.push(i));
            }
        }
        assert(placed_at(m2, i, f, slot));
        assert forall|j: int| 0 <= j < n implies #[trigger] is_placed(m2, j) by {
            if j < i {
                assert(is_placed(m, j));
                let (k, p) = choose|k: int, p: int| #[trigger] placed_at(m, j, k, p);
                assert(m2.steps[k].members[p] == m.steps[k].members[p]);
                assert(placed_at(m2, j, k, p));
            }
        }
        assert forall|j: int, k1: int, p1: int, k2: int, p2: int|
            #[trigger] placed_at(m2, j, k1, p1) && #[trigger] placed_at(m2, j, k2, p2) implies k1
            == k2 && p1 == p2 by {
            if k1 == f && p1 == slot {
                if !(k2 == f && p2 == slot) {
                    assert(m2.steps[k2].members[p2] == m.steps[k2].members[p2]);
                    assert(step_inv(txs, i, m.steps[k2]));
                }
            } else if k2 == f && p2 == slot {
                assert(m2.steps[k1].members[p1] == m.steps[k1].members[p1]);
                assert(step_inv(txs, i, m.steps[k1]));
            } else {
                assert(m2.steps[k1].members[p1] == m.steps[k1].members[p1]);
                assert(m2.steps[k2].members[p2] == m.steps[k2].members[p2]);
                assert(placed_at(m, j, k1, p1) && placed_at(m, j, k2, p2));
            }
        }
        assert forall|k: int, p: int, j: int|
            0 <= j < k < m2.steps.len() && 0 <= p < m2.steps[k].members.len() implies #[trigger] blocked_by(
            txs,
            m2,
            k,
            p,
            j,
        ) by {
            if k == f && p == slot {
                assert(conflicting_in(tx.locks, m.steps[j]).len() > 0);
                lemma_reject_has_witness(txs, i, m.steps[j], tx);
                let q = choose|q: int|
                    #![trigger m.steps[j].members[q]]
                    0 <= q < m.steps[j].members.len() && txs_conflict(tx, txs[m.steps[j].members[q]]);
                assert(m2.steps[j].members[q] == m.steps[j].members[q]);
                assert(step_inv(txs, i, m.steps[j]));
                assert(m2.steps[j].members[q] < m2.steps[k].members[p]);
            } else {
                assert(m2.steps[k].members[p] == m.steps[k].members[p]);
                assert(blocked_by(txs, m, k, p, j));
                let q = choose|q: int|
                    #![trigger m.steps[j].members[q]]
                    0 <= q < m.steps[j].members.len() && m.steps[j].members[q]
                        < m.steps[k].members[p] && txs_conflict(
                        txs[m.steps[k].members[p]],
                        txs[m.steps[j].members[q]],
                    );
                assert(m2.steps[j].members[q] == m.steps[j].members[q]);
            }
        }
    }
}

/// No two transactions that share a step of the schedule conflict: each step
/// is a set of transactions that can run in parallel.
pub proof fn law_steps_are_conflict_free(txs: Seq<TxModel>)
    ensures
        forall|k: int, p: int, q: int|
            0 <= k < schedule_model(txs).steps.len() && 0 <= p < schedule_model(
                txs,
            ).steps[k].members.len() && 0 <= q < schedule_model(txs).steps[k].members.len() && p
                != q ==> !txs_conflict(
                txs[#[trigger] schedule_model(txs).steps[k].members[p]],
                txs[#[trigger] schedule_model(txs).steps[k].members[q]],
            ),
{
    lemma_schedule_inv(txs, txs.len() as int);
    assert(txs.take(txs.len() as int) =~= txs);
    let m = schedule_model(txs);
    assert forall|k: int, p: int, q: int|
        0 <= k < m.steps.len() && 0 <= p < m.steps[k].members.len() && 0 <= q
            < m.steps[k].members.len() && p != q implies !txs_conflict(
        txs[#[trigger] m.steps[k].members[p]],
        txs[#[trigger] m.steps[k].members[q]],
    ) by {
        assert(step_inv(txs, txs.len() as int, m.steps[k]));
    }
}

/// Every transaction of the block is placed in exactly one step; within a
/// step, transactions keep their block order, and each step lists their
/// signatures.
pub proof fn law_each_transaction_placed_once(txs: Seq<TxModel>)
    ensures
        forall|i: int| 0 <= i < txs.len() ==> #[trigger] is_placed(schedule_model(txs), i),
        forall|i: int, k1: int, p1: int, k2: int, p2: int|
            #[trigger] placed_at(schedule_model(txs), i, k1, p1) && #[trigger] placed_at(
                schedule_model(txs),
                i,
                k2,
                p2,
            ) ==> k1 == k2 && p1 == p2,
        forall|k: int|
            0 <= k < schedule_model(txs).steps.len() ==> #[trigger] step_inv(
                txs,
                txs.len() as int,
                schedule_model(txs).steps[k],
            ),
{
    lemma_schedule_inv(txs, txs.len() as int);
    assert(txs.take(txs.len() as int) =~= txs);
}

/// Each transaction goes to the earliest step it fits: every earlier step
/// already held a transaction, placed before it, that it conflicts with.
pub proof fn law_placed_in_earliest_fitting_step(txs: Seq<TxModel>)
    ensures
        forall|k: int, p: int, j: int|
            0 <= j < k < schedule_model(txs).steps.len() && 0 <= p < schedule_model(
                txs,
            ).steps[k].members.len() ==> #[trigger] blocked_by(txs, schedule_model(txs), k, p, j),
{
    lemma_schedule_inv(txs, txs.len() as int);
    assert(txs.take(txs.len() as int) =~= txs);
}

/// How many transactions the steps hold together.
pub open spec fn placed_count(steps: Seq<StepModel>) -> nat
    decreases steps.len(),
{
    if steps.len() == 0 {
        0
    } else {
        placed_count(steps.drop_last()) + steps.last().signatures.len()
    }
}

proof fn lemma_placed_count_update(steps: Seq<StepModel>, k: int, x: StepModel)
    requires
        0 <= k < steps.len(),
    ensures
        placed_count(steps.update(k, x)) + steps[k].signatures.len() == placed_count(steps)
            + x.signatures.len(),
    decreases steps.len(),
{
    if k == steps.len() - 1 {
        assert(steps.update(k, x).drop_last() =~= steps.drop_last());
    } else {
        lemma_placed_count_update(steps.drop_last(), k, x);
        assert(steps.update(k, x).drop_last() =~= steps.drop_last().update(k, x));
    }
}

/// The step widths of a block's schedule add up to its number of
/// transactions, no step is empty, and there are no more steps than
/// transactions.
pub proof fn law_widths_add_up(txs: Seq<TxModel>)
    ensures
        placed_count(schedule_model(txs).steps) == txs.len(),
        forall|k: int|
            0 <= k < schedule_model(txs).steps.len() ==> #[trigger] schedule_model(
                txs,
            ).steps[k].signatures.len() > 0,
        schedule_model(txs).steps.len() <= txs.len(),
    decreases txs.len(),
{
    if txs.len() > 0 {
        let d = txs.drop_last();
        law_widths_add_up(d);
        let m = schedule_model(d);
        let tx = txs.last();
        let k = first_fit(m.steps, tx.locks);
        lemma_first_fit(m.steps, tx.locks, 0);
        let next = schedule_model(txs);
        if k < m.steps.len() {
            lemma_placed_count_update(m.steps, k, step_with(m.steps[k], tx, txs.len() - 1));
            assert forall|j: int| 0 <= j < next.steps.len() implies #[trigger] next.steps[j].signatures.len()
                > 0 by {
                if j != k {
                    assert(next.steps[j] == m.steps[j]);
                }
            }
        } else {
            let fresh = step_with(empty_step(), tx, txs.len() - 1);
            assert(m.steps.push(fresh).drop_last() =~= m.steps);
            assert forall|j: int| 0 <= j < next.steps.len() implies #[trigger] next.steps[j].signatures.len()
                > 0 by {
                if j < m.steps.len() {
                    assert(next.steps[j] == m.steps[j]);
                }
            }
        }
    }
}

/// A step holding only `a`, placed at block position `i`, satisfies the
/// step invariant for the one-transaction block `seq![a]`.
proof fn lemma_single_step(a: TxModel)
    ensures
        step_inv(seq![a], 1, step_with(empty_step(), a, 0)),
{
    let txs = seq![a];
    let s = step_with(empty_step(), a, 0);
    assert(txs[0] == a);
    assert(s.members[0] == 0);
    assert forall|x: Seq<char>| #[trigger] s.written.contains(x) <==> exists|p: int|
        0 <= p < s.members.len() && tx_writes(txs[#[trigger] s.members[p]], x) by {
        lemma_lock_sets(a.locks, x);
        if tx_writes(a, x) {
            assert(tx_writes(txs[s.members[0]], x));
        }
    }
    assert forall|x: Seq<char>| #[trigger] s.touched.contains(x) <==> exists|p: int|
        0 <= p < s.members.len() && tx_touches(txs[#[trigger] s.members[p]], x) by {
        lemma_lock_sets(a.locks, x);
        if tx_touches(a, x) {
            assert(tx_touches(txs[s.members[0]], x));
        }
    }
}

/// Whether two transactions conflict does not depend on which one was
/// placed first: a step holding only `a` rejects `b` exactly when the two
/// conflict, exactly when a step holding only `b` rejects `a`.
pub proof fn law_step_conflict_is_symmetric(a: TxModel, b: TxModel)
    ensures
        (conflicting_in(b.locks, step_with(empty_step(), a, 0)).len() == 0) == !txs_conflict(a, b),
        (conflicting_in(b.locks, step_with(empty_step(), a, 0)).len() == 0) == (conflicting_in(
            a.locks,
            step_with(empty_step(), b, 0),
        ).len() == 0),
        txs_conflict(a, b) == txs_conflict(b, a),
{
    lemma_single_step(a);
    lemma_single_step(b);
    let sa = step_with(empty_step(), a, 0);
    let sb = step_with(empty_step(), b, 0);
    assert(seq![a][sa.members[0]] == a);
    assert(seq![b][sb.members[0]] == b);
    if conflicting_in(b.locks, sa).len() == 0 {
        lemma_fit_no_conflict(seq![a], 1, sa, b, 0);
    } else {
        lemma_reject_has_witness(seq![a], 1, sa, b);
    }
    if conflicting_in(a.locks, sb).len() == 0 {
        lemma_fit_no_conflict(seq![b], 1, sb, a, 0);
    } else {
        lemma_reject_has_witness(seq![b], 1, sb, a);
    }
}

/// Every account a step writes is one it touches.
pub proof fn law_written_accounts_are_touched(txs: Seq<TxModel>)
    ensures
        forall|k: int, x: Seq<char>|
            0 <= k < schedule_model(txs).steps.len() && #[trigger] schedule_model(
                txs,
            ).steps[k].written.contains(x) ==> schedule_model(txs).steps[k].touched.contains(x),
{
    lemma_schedule_inv(txs, txs.len() as int);
    assert(txs.take(txs.len() as int) =~= txs);
    let m = schedule_model(txs);
    assert forall|k: int, x: Seq<char>|
        0 <= k < m.steps.len() && #[trigger] m.steps[k].written.contains(x) implies m.steps[k].touched.contains(x) by {
        assert(step_inv(txs, txs.len() as int, m.steps[k]));
        let p = choose|p: int|
            0 <= p < m.steps[k].members.len() && tx_writes(txs[#[trigger] m.steps[k].members[p]], x);
        let t = txs[m.steps[k].members[p]];
        let j = choose|j: int|
            #![trigger t.locks[j]]
            0 <= j < t.locks.len() && t.locks[j].account == x && t.locks[j].writable;
        assert(tx_touches(t, x));
    }
}

/// Block positions are listed in increasing order within each step, so
/// transactions given in `tx_index` order keep that order within a step.
pub proof fn law_steps_keep_tx_index_order(txs: Seq<TxModel>)
    requires
        forall|i: int, j: int| 0 <= i < j < txs.len() ==> #[trigger] txs[i].tx_index < #[trigger] txs[j].tx_index,
    ensures
        forall|k: int, p: int, q: int|
            0 <= k < schedule_model(txs).steps.len() && 0 <= p < q < schedule_model(
                txs,
            ).steps[k].members.len() ==> txs[#[trigger] schedule_model(txs).steps[k].members[p]].tx_index
                < txs[#[trigger] schedule_model(txs).steps[k].members[q]].tx_index,
{
    lemma_schedule_inv(txs, txs.len() as int);
    assert(txs.take(txs.len() as int) =~= txs);
    let m = schedule_model(txs);
    assert forall|k: int, p: int, q: int|
        0 <= k < m.steps.len() && 0 <= p < q < m.steps[k].members.len() implies txs[#[trigger] m.steps[k].members[p]].tx_index
        < txs[#[trigger] m.steps[k].members[q]].tx_index by {
        assert(step_inv(txs, txs.len() as int, m.steps[k]));
        let x = m.steps[k].members[p];
        let y = m.steps[k].members[q];
        assert(x < y);
        assert(0 <= x && y < txs.len());
    }
}

/// The events of rejecting a transaction depend on it only through its
/// locks and program ids.
proof fn lemma_rejections_by_fields(a: TxModel, b: TxModel, steps: Seq<StepModel>, k: int)
    requires
        a.locks == b.locks,
        a.program_ids == b.program_ids,
    ensures
        rejection_events(a, steps, k) == rejection_events(b, steps, k),
    decreases k,
{
    if k > 0 {
        lemma_rejections_by_fields(a, b, steps, k - 1);
        let hits = conflicting_in(a.locks, steps[k - 1]);
        assert(hits.map_values(|l: LockModel| event_for(a, l)) =~= hits.map_values(
            |l: LockModel| event_for(b, l),
        ));
    }
}

/// The schedule never reads `tx_index`: two blocks whose transactions agree
/// in signature, program ids and locks have the same schedule.
pub proof fn law_schedule_ignores_tx_index(a: Seq<TxModel>, b: Seq<TxModel>)
    requires
        a.len() == b.len(),
        forall|i: int|
            0 <= i < a.len() ==> (#[trigger] a[i]).signature == b[i].signature && a[i].program_ids
                == b[i].program_ids && a[i].locks == b[i].locks,
    ensures
        schedule_model(a) == schedule_model(b),
    decreases a.len(),
{
    if a.len() > 0 {
        law_schedule_ignores_tx_index(a.drop_last(), b.drop_last());
        let m = schedule_model(a.drop_last());
        assert(a[a.len() - 1] == a.last());
        lemma_rejections_by_fields(a.last(), b.last(), m.steps, first_fit(m.steps, a.last().locks));
        let k = first_fit(m.steps, a.last().locks);
        if k < m.steps.len() {
            assert(step_with(m.steps[k], a.last(), a.len() - 1) == step_with(m.steps[k], b.last(), a.len() - 1));
        } else {
            assert(step_with(empty_step(), a.last(), a.len() - 1) == step_with(empty_step(), b.last(), a.len() - 1));
        }
    }
}

/// `big` is `small` with more transactions placed, all of them at block
/// positions `m` and after: no fewer steps, each step of `small` a prefix
/// (members and signatures) of the same step of `big`, the events of `small`
/// a prefix of those of `big`, and every member that `big` adds at a
/// position of `m` or more.
pub open spec fn grows_from(small: ScheduleModel, big: ScheduleModel, m: int) -> bool {
    &&& small.steps.len() <= big.steps.len()
    &&& forall|k: int|
        0 <= k < small.steps.len() ==> small.steps[k].members.len() <= (
        #[trigger] big.steps[k]).members.len() && small.steps[k].members == big.steps[k].members.take(
            small.steps[k].members.len() as int,
        ) && small.steps[k].signatures.len() <= big.steps[k].signatures.len()
            && small.steps[k].signatures == big.steps[k].signatures.take(
            small.steps[k].signatures.len() as int,
        )
    &&& small.conflicts.len() <= big.conflicts.len()
    &&& small.conflicts == big.conflicts.take(small.conflicts.len() as int)
    &&& forall|k: int, q: int|
        0 <= k < big.steps.len() && 0 <= q < big.steps[k].members.len() && (k >= small.steps.len()
            || q >= small.steps[k].members.len()) ==> #[trigger] big.steps[k].members[q] >= m
}

proof fn lemma_place_grows(small: ScheduleModel, big: ScheduleModel, m: int, tx: TxModel, i: int)
    requires
        grows_from(small, big, m),
        i >= m,
    ensures
        grows_from(small, place(big, tx, i), m),
{
    let k = first_fit(big.steps, tx.locks);
    lemma_first_fit(big.steps, tx.locks, 0);
    let next = place(big, tx, i);
    assert(next.conflicts.take(small.conflicts.len() as int) =~= big.conflicts.take(
        small.conflicts.len() as int,
    ));
    if k < big.steps.len() {
        let old_step = big.steps[k];
        let new_step = step_with(old_step, tx, i);
        assert(next.steps[k] == new_step);
        assert forall|j: int| 0 <= j < small.steps.len() implies small.steps[j].members.len() <= (
        #[trigger] next.steps[j]).members.len() && small.steps[j].members == next.steps[j].members.take(
            small.steps[j].members.len() as int,
        ) && small.steps[j].signatures.len() <= next.steps[j].signatures.len()
            && small.steps[j].signatures == next.steps[j].signatures.take(
            small.steps[j].signatures.len() as int,
        ) by {
            assert(big.steps[j].members.len() >= 0);
            if j == k {
                assert(new_step.members.take(small.steps[j].members.len() as int)
                    =~= old_step.members.take(small.steps[j].members.len() as int));
                assert(new_step.signatures.take(small.steps[j].signatures.len() as int)
                    =~= old_step.signatures.take(small.steps[j].signatures.len() as int));
            }
        }
        assert forall|j: int, q: int|
            0 <= j < next.steps.len() && 0 <= q < next.steps[j].members.len() && (j
                >= small.steps.len() || q >= small.steps[j].members.len()) implies #[trigger] next.steps[j].members[q]
            >= m by {
            if j == k {
                if q < old_step.members.len() {
                    assert(next.steps[j].members[q] == big.steps[j].members[q]);
                }
            } else {
                assert(next.steps[j] == big.steps[j]);
            }
        }
    } else {
        assert forall|j: int| 0 <= j < small.steps.len() implies small.steps[j].members.len() <= (
        #[trigger] next.steps[j]).members.len() && small.steps[j].members == next.steps[j].members.take(
            small.steps[j].members.len() as int,
        ) && small.steps[j].signatures.len() <= next.steps[j].signatures.len()
            && small.steps[j].signatures == next.steps[j].signatures.take(
            small.steps[j].signatures.len() as int,
        ) by {
            assert(next.steps[j] == big.steps[j]);
        }
        assert forall|j: int, q: int|
            0 <= j < next.steps.len() && 0 <= q < next.steps[j].members.len() && (j
                >= small.steps.len() || q >= small.steps[j].members.len()) implies #[trigger] next.steps[j].members[q]
            >= m by {
            if j < big.steps.len() {
                assert(next.steps[j] == big.steps[j]);
            }
        }
    }
}

proof fn lemma_prefix_grows(txs: Seq<TxModel>, m: int, n: int)
    requires
        0 <= m <= n <= txs.len(),
    ensures
        grows_from(schedule_model(txs.take(m)), schedule_model(txs.take(n)), m),
    decreases n - m,
{
    let small = schedule_model(txs.take(m));
    if n == m {
        assert forall|k: int| 0 <= k < small.steps.len() implies small.steps[k].members.len() <= (
        #[trigger] small.steps[k]).members.len() && small.steps[k].members == small.steps[k].members.take(
            small.steps[k].members.len() as int,
        ) && small.steps[k].signatures.len() <= small.steps[k].signatures.len()
            && small.steps[k].signatures == small.steps[k].signatures.take(
            small.steps[k].signatures.len() as int,
        ) by {
            assert(small.steps[k].members =~= small.steps[k].members.take(
                small.steps[k].members.len() as int,
            ));
            assert(small.steps[k].signatures =~= small.steps[k].signatures.take(
                small.steps[k].signatures.len() as int,
            ));
        }
        assert(small.conflicts =~= small.conflicts.take(small.conflicts.len() as int));
    } else {
        lemma_prefix_grows(txs, m, n - 1);
        assert(txs.take(n).drop_last() =~= txs.take(n - 1));
        assert(txs.take(n).last() == txs[n - 1]);
        lemma_place_grows(small, schedule_model(txs.take(n - 1)), m, txs[n - 1], n - 1);
    }
}

/// Later transactions never move earlier ones: the schedule of the first
/// `m` transactions is, step by step, a prefix of the whole block's
/// schedule, its conflict events are a prefix of the block's events, and
/// everything else in the block's schedule is a transaction at position `m`
/// or after.
pub proof fn law_schedule_of_prefix(txs: Seq<TxModel>, m: int)
    requires
        0 <= m <= txs.len(),
    ensures
        grows_from(schedule_model(txs.take(m)), schedule_model(txs), m),
{
    lemma_prefix_grows(txs, m, txs.len() as int);
    assert(txs.take(txs.len() as int) =~= txs);
}

/// The step that a fresh step becomes once a transaction with `locks` is
/// added to it: the accounts it writes and the accounts it touches.
pub open spec fn step_of_locks(locks: Seq<LockModel>) -> StepModel {
    StepModel {
        written: Set::empty() + written_accounts(locks),
        touched: Set::empty() + lock_accounts(locks),
        members: seq![],
        signatures: seq![],
    }
}

/// For steps built by adding one transaction to a fresh step: a step
/// holding locks `a` rejects none of locks `b` exactly when a step holding
/// locks `b` rejects none of locks `a`, so which of two transactions was
/// placed first does not decide whether they conflict.
pub proof fn law_single_steps_reject_symmetrically(a: Seq<LockModel>, b: Seq<LockModel>)
    ensures
        (conflicting_in(b, step_of_locks(a)).len() == 0) == (conflicting_in(a, step_of_locks(b)).len()
            == 0),
{
    let ta = TxModel { signature: seq![], tx_index: 0, program_ids: seq![], locks: a };
    let tb = TxModel { signature: seq![], tx_index: 0, program_ids: seq![], locks: b };
    law_step_conflict_is_symmetric(ta, tb);
    lemma_conflicting_by_sets(b, step_with(empty_step(), ta, 0), step_of_locks(a));
    lemma_conflicting_by_sets(a, step_with(empty_step(), tb, 0), step_of_locks(b));
}

/// The conflict events of one rejection of `tx` by `step`: each lock of
/// `tx` that the step refuses (a write lock on an account the step
/// touches, or a read lock on an account it writes), in lock order, as the
/// lock's account and kind with the transaction's program ids.
pub open spec fn rejected_locks(tx: TxModel, step: StepModel) -> Seq<ConflictModel> {
    tx.locks.filter(
        |l: LockModel|
            if l.writable {
                step.touched.contains(l.account)
            } else {
                step.written.contains(l.account)
            },
    ).map_values(
        |l: LockModel| ConflictModel { account: l.account, writable: l.writable, program_ids: tx.program_ids },
    )
}

proof fn lemma_rejection_events_flat(tx: TxModel, steps: Seq<StepModel>, upto: int)
    requires
        0 <= upto <= steps.len(),
    ensures
        rejection_events(tx, steps, upto) == Seq::new(
            upto as nat,
            |j: int| rejected_locks(tx, steps[j]),
        ).flatten(),
    decreases upto,
{
    let f = |j: int| rejected_locks(tx, steps[j]);
    if upto == 0 {
        assert(Seq::new(0, f) =~= Seq::<Seq<ConflictModel>>::empty());
    } else {
        lemma_rejection_events_flat(tx, steps, upto - 1);
        let step = steps[upto - 1];
        assert((|l: LockModel| lock_conflicts(l, step)) =~= (|l: LockModel|
            if l.writable {
                step.touched.contains(l.account)
            } else {
                step.written.contains(l.account)
            }));
        assert(conflicting_in(tx.locks, step).map_values(|l: LockModel| event_for(tx, l))
            =~= rejected_locks(tx, step));
        assert(Seq::new(upto as nat, f) =~= Seq::new((upto - 1) as nat, f).push(f(upto - 1)));
        Seq::new((upto - 1) as nat, f).lemma_flatten_push(f(upto - 1));
    }
}

/// Every rejection is recorded: when transaction `i` is placed in step `k`,
/// the conflict events it adds are, for each earlier step in order, one
/// event per lock of the transaction that the step (as it stood) refuses,
/// in lock order.
pub proof fn law_every_rejection_is_recorded(txs: Seq<TxModel>, i: int, k: int, p: int)
    requires
        0 <= i < txs.len(),
        placed_at(schedule_model(txs.take(i + 1)), i, k, p),
    ensures
        schedule_model(txs.take(i + 1)).conflicts == schedule_model(txs.take(i)).conflicts
            + Seq::new(k as nat, |j: int| rejected_locks(txs[i], schedule_model(txs.take(i)).steps[j])).flatten(),
{
    let before = schedule_model(txs.take(i));
    let tx = txs[i];
    assert(txs.take(i + 1).drop_last() =~= txs.take(i));
    assert(txs.take(i + 1).last() == tx);
    let after = schedule_model(txs.take(i + 1));
    assert(after == place(before, tx, i));
    let k0 = first_fit(before.steps, tx.locks);
    lemma_first_fit(before.steps, tx.locks, 0);
    lemma_schedule_inv(txs, i);
    if k != k0 && k < before.steps.len() {
        assert(after.steps[k] == before.steps[k]);
        assert(step_inv(txs, i, before.steps[k]));
        assert(before.steps[k].members[p] < i);
    }
    assert(k == k0);
    lemma_rejection_events_flat(tx, before.steps, k0);
}

} // verus!
