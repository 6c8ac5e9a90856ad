//! The lock manager: strict two-phase locking over the rows of a table.
//!
//! A request that cannot be granted at once is answered with `Waiting`. The
//! caller then waits until the lock table has changed and asks again; the
//! request keeps its place in the queue in the meantime.

use vstd::prelude::*;
use std::collections::HashMap;
use crate::lock_queue::{
    compatible, enqueued, has_request, holds, index_of, lemma_empty_wf, lemma_fifo,
    lemma_mutual_exclusion, lemma_released_absent, lemma_released_wf, queue_wf, released, upgraded,
    waits, LockMode, LockRequestQueue, LockRq,
};
use crate::wait_graph::{
    is_cycle, is_largest, is_least_lasso, lasso_cycle, lemma_lasso_cycle, linked, WaitGraph,
};
use crate::txn::{IsolationLevel, RowSet, TwoPLState, Txn, TxnOutcome, RID};
use crate::types::TxID;

verus! {

broadcast use vstd::std_specs::hash::group_hash_axioms;

/// Why a lock request failed.
#[derive(Clone, Copy, Debug, PartialEq, Eq, Structural)]
pub enum LockError {
    /// The request cannot be served as the queue stands: an upgrade of
    /// another transaction is pending, or the transaction asked for a lock
    /// that does not fit the one it has on the row. The transaction goes on.
    LockConflict,
    /// The transaction asked for a lock in its shrinking phase. It is
    /// aborted.
    PhaseViolation,
    /// Deadlock detection chose the transaction as its victim. It is
    /// aborted.
    DeadlockVictim,
    /// The transaction reads uncommitted data and asked for a shared lock.
    /// It is aborted.
    IsolationViolation,
    /// The transaction had ended before it asked.
    TransactionEnded,
}

/// The answer to a lock request.
#[derive(Clone, Copy, Debug, PartialEq, Eq, Structural)]
pub enum LockReply {
    /// The transaction holds the lock.
    Granted,
    /// The request stands in the queue; ask again when the table has changed.
    Waiting,
    /// The request failed.
    Failed(LockError),
}

/// What decides a request before the queue is looked at: a transaction that
/// has ended, that deadlock detection has chosen as its victim, or that
/// asks against the rules of its isolation level or phase, is refused.
pub open spec fn entry_verdict(txn: Txn, victim: bool, mode: LockMode) -> Option<LockError> {
    if txn.ended() != TxnOutcome::Running {
        Some(LockError::TransactionEnded)
    } else if victim {
        Some(LockError::DeadlockVictim)
    } else if mode == LockMode::Shared && txn.isolation() == IsolationLevel::ReadUncommitted {
        Some(LockError::IsolationViolation)
    } else if txn.phase() == TwoPLState::Shrinking {
        Some(LockError::PhaseViolation)
    } else {
        None
    }
}

/// What a request for a lock in `mode` on `rid` does: `before` and `txn0`
/// are the lock table and the transaction when the request is made,
/// `after` and `txn1` what it leaves, `r` its answer.
///
/// - Where `entry_verdict` decides, the request fails with that error and
///   nothing is granted or enqueued. A transaction that was running is
///   aborted, and is a victim no longer.
/// - A lock that the transaction has recorded answers the request: `Granted`,
///   or `LockConflict` where an exclusive lock is asked for on a row that is
///   recorded as shared (that takes an upgrade).
/// - A request of the transaction that stands in the queue is not made
///   again. If it has been granted the transaction records the lock, and
///   the answer is `Granted`, or `LockConflict` if it is a shared lock where
///   an exclusive one was asked for; otherwise the answer is `Waiting`.
/// - Otherwise the request is enqueued; it is granted at once if it is
///   compatible with every request in the queue.
pub open spec fn acquired(
    before: LockMgr,
    txn0: Txn,
    after: LockMgr,
    txn1: Txn,
    rid: RID,
    mode: LockMode,
    r: LockReply,
) -> bool {
    let id = txn0.txn_id();
    let q = before.requests(rid);
    let exclusive = mode == LockMode::Exclusive;
    &&& txn1.same_identity(txn0)
    &&& txn1.phase() == txn0.phase()
    &&& after.same_queues_except(before, rid)
    &&& after.upgrader(rid) == before.upgrader(rid)
    &&& match entry_verdict(txn0, before.is_victim(id), mode) {
        Some(e) => {
            &&& r == LockReply::Failed(e)
            &&& after.requests(rid) == q
            &&& txn1.same_locks(txn0)
            &&& if txn0.ended() == TxnOutcome::Running {
                txn1.ended() == TxnOutcome::Aborted && after.victims_without(before, id)
            } else {
                txn1.ended() == txn0.ended() && after.same_victims(before)
            }
        },
        None => {
            &&& after.same_victims(before)
            &&& txn1.ended() == txn0.ended()
            &&& if txn0.exclusive_rows()@.contains(rid) || (!exclusive && txn0.shared_rows()@.contains(rid)) {
                r == LockReply::Granted && after.requests(rid) == q && txn1.same_locks(txn0)
            } else if txn0.shared_rows()@.contains(rid) {
                r == LockReply::Failed(LockError::LockConflict) && after.requests(rid) == q && txn1.same_locks(txn0)
            } else if has_request(q, id) {
                let rq = q[index_of(q, id)];
                &&& after.requests(rid) == q
                &&& if rq.granted {
                    &&& txn0.with_lock(txn1, rid, rq.lock_mode == LockMode::Exclusive)
                    &&& r == if exclusive && rq.lock_mode == LockMode::Shared {
                        LockReply::Failed(LockError::LockConflict)
                    } else {
                        LockReply::Granted
                    }
                } else {
                    r == LockReply::Waiting && txn1.same_locks(txn0)
                }
            } else {
                let next = enqueued(q, id, mode);
                &&& after.requests(rid) == next
                &&& if next[q.len() as int].granted {
                    r == LockReply::Granted && txn0.with_lock(txn1, rid, exclusive)
                } else {
                    r == LockReply::Waiting && txn1.same_locks(txn0)
                }
            }
        },
    }
}

/// Phase safety: a transaction that is in its shrinking phase is granted
/// nothing. Whatever lock it asks for, the request fails, no queue changes
/// and the transaction records no lock. A running transaction that is no
/// victim and asks within the rules of its isolation level fails with
/// `PhaseViolation`, and is aborted.
pub proof fn lemma_phase_safety(
    before: LockMgr,
    txn0: Txn,
    after: LockMgr,
    txn1: Txn,
    rid: RID,
    mode: LockMode,
    r: LockReply,
)
    requires
        acquired(before, txn0, after, txn1, rid, mode, r),
        txn0.phase() == TwoPLState::Shrinking,
    ensures
        r is Failed,
        after.same_queues(before),
        txn1.same_locks(txn0),
        txn1.phase() == TwoPLState::Shrinking,
        txn0.ended() == TxnOutcome::Running ==> txn1.ended() == TxnOutcome::Aborted,
        txn0.ended() == TxnOutcome::Running && !before.is_victim(txn0.txn_id()) && !(mode == LockMode::Shared
            && txn0.isolation() == IsolationLevel::ReadUncommitted) ==> r == LockReply::Failed(
            LockError::PhaseViolation,
        ),
{
    assert forall|k: RID| #[trigger] after.requests(k) == before.requests(k) && after.upgrader(k) == before.upgrader(k) by {
        if k != rid {
            assert(after.requests(k) == before.requests(k));
        }
    }
}

/// What giving back the lock on `rid` does: the request of the transaction
/// leaves the queue, what it kept waiting is granted, and the transaction
/// forgets the lock and enters its shrinking phase. `r` says whether the
/// transaction had a request on the row.
pub open spec fn unlocked(
    before: LockMgr,
    txn0: Txn,
    after: LockMgr,
    txn1: Txn,
    rid: RID,
    r: bool,
) -> bool {
    let id = txn0.txn_id();
    &&& txn1.same_identity(txn0)
    &&& txn1.ended() == txn0.ended()
    &&& txn1.phase() == TwoPLState::Shrinking
    &&& txn1.shared_rows()@ == txn0.shared_rows()@.remove(rid)
    &&& txn1.exclusive_rows()@ == txn0.exclusive_rows()@.remove(rid)
    &&& txn0.has_recorded(rid) ==> txn1.recorded() < txn0.recorded()
    &&& after.same_queues_except(before, rid)
    &&& after.same_victims(before)
    &&& (after.requests(rid), after.upgrader(rid)) == released(
        before.requests(rid),
        before.upgrader(rid),
        id,
    )
    &&& r == has_request(before.requests(rid), id)
}

/// What a request to upgrade the shared lock on `rid` to an exclusive one
/// does.
///
/// - Where `entry_verdict` decides, the request fails with that error and
///   nothing changes in the queue. A transaction that was running is
///   aborted, and is a victim no longer.
/// - An exclusive lock that the transaction has recorded answers the
///   request: `Granted`.
/// - A transaction without a request on the row, or with one for a shared
///   lock that waits, is answered with `LockConflict`; so is one that asks
///   while the upgrade of another is pending.
/// - A request for an exclusive lock that stands in the queue is not made
///   again: if it has been granted the transaction records the lock and is
///   answered with `Granted`, otherwise with `Waiting`.
/// - Otherwise the request of the transaction becomes one for an exclusive
///   lock at the same place, which is granted at once if the policy allows.
pub open spec fn upgrade_asked(
    before: LockMgr,
    txn0: Txn,
    after: LockMgr,
    txn1: Txn,
    rid: RID,
    r: LockReply,
) -> bool {
    let id = txn0.txn_id();
    let q = before.requests(rid);
    let same_queue = after.requests(rid) == q && after.upgrader(rid) == before.upgrader(rid);
    &&& txn1.same_identity(txn0)
    &&& txn1.phase() == txn0.phase()
    &&& after.same_queues_except(before, rid)
    &&& match entry_verdict(txn0, before.is_victim(id), LockMode::Exclusive) {
        Some(e) => {
            &&& r == LockReply::Failed(e)
            &&& same_queue
            &&& txn1.same_locks(txn0)
            &&& if txn0.ended() == TxnOutcome::Running {
                txn1.ended() == TxnOutcome::Aborted && after.victims_without(before, id)
            } else {
                txn1.ended() == txn0.ended() && after.same_victims(before)
            }
        },
        None => {
            &&& after.same_victims(before)
            &&& txn1.ended() == txn0.ended()
            &&& if txn0.exclusive_rows()@.contains(rid) {
                r == LockReply::Granted && same_queue && txn1.same_locks(txn0)
            } else if !has_request(q, id) {
                r == LockReply::Failed(LockError::LockConflict) && same_queue && txn1.same_locks(txn0)
            } else {
                let rq = q[index_of(q, id)];
                if rq.lock_mode == LockMode::Exclusive {
                    &&& same_queue
                    &&& if rq.granted {
                        r == LockReply::Granted && txn0.with_lock(txn1, rid, true)
                    } else {
                        r == LockReply::Waiting && txn1.same_locks(txn0)
                    }
                } else if !rq.granted || before.upgrader(rid).is_some() {
                    r == LockReply::Failed(LockError::LockConflict) && same_queue && txn1.same_locks(txn0)
                } else {
                    &&& (after.requests(rid), after.upgrader(rid)) == upgraded(q, id)
                    &&& if after.requests(rid)[index_of(q, id)].granted {
                        r == LockReply::Granted && txn0.with_lock(txn1, rid, true)
                    } else {
                        r == LockReply::Waiting && txn1.same_locks(txn0)
                    }
                }
            }
        },
    }
}

/// Phase safety of upgrades: a transaction that is in its shrinking phase
/// gets no upgrade. The request fails, no queue changes and the transaction
/// records no lock.
pub proof fn lemma_upgrade_phase_safety(
    before: LockMgr,
    txn0: Txn,
    after: LockMgr,
    txn1: Txn,
    rid: RID,
    r: LockReply,
)
    requires
        upgrade_asked(before, txn0, after, txn1, rid, r),
        txn0.phase() == TwoPLState::Shrinking,
    ensures
        r is Failed,
        after.same_queues(before),
        txn1.same_locks(txn0),
        txn1.phase() == TwoPLState::Shrinking,
        txn0.ended() == TxnOutcome::Running ==> txn1.ended() == TxnOutcome::Aborted,
{
    assert forall|k: RID| #[trigger] after.requests(k) == before.requests(k) && after.upgrader(k) == before.upgrader(k) by {
        if k != rid {
            assert(after.requests(k) == before.requests(k));
        }
    }
}

/// What one pass of deadlock detection does. If no transactions wait for
/// each other in a cycle, nothing changes. Otherwise the pass takes the
/// cycle that the first closing walk of the waits-for relation closes, and
/// on it the transaction `v` with the largest identifier, the newest: the
/// requests of `v` leave every queue, what they kept waiting is granted,
/// and `v` is a victim until it asks for a lock again and learns that it is
/// aborted.
pub open spec fn detected(before: LockMgr, after: LockMgr, r: Option<TxID>) -> bool {
    match r {
        None => {
            &&& forall|c: Seq<TxID>| !is_cycle(before.wait_fn(), c)
            &&& after.same_queues(before)
            &&& after.same_victims(before)
        },
        Some(v) => {
            &&& exists|w: Seq<TxID>|
                #![trigger is_least_lasso(before.wait_fn(), w)]
                is_least_lasso(before.wait_fn(), w) && is_largest(lasso_cycle(w), v)
            &&& forall|rid: RID|
                (#[trigger] after.requests(rid), after.upgrader(rid)) == released(
                    before.requests(rid),
                    before.upgrader(rid),
                    v,
                )
            &&& forall|t: TxID| after.is_victim(t) <==> before.is_victim(t) || t == v
        },
    }
}

/// Deadlock detection makes progress: a pass that finds a victim leaves it
/// without a request on any row, so that it neither waits nor is waited
/// for, and leaves every queue well formed.
pub proof fn lemma_victim_gone(before: LockMgr, after: LockMgr, v: TxID, rid: RID, t: TxID)
    requires
        before.wf(),
        detected(before, after, Some(v)),
    ensures
        !has_request(after.requests(rid), v),
        queue_wf(after.requests(rid), after.upgrader(rid)),
        !after.waits_for(v, t),
        !after.waits_for(t, v),
{
    before.lemma_queues_wf(rid);
    lemma_released_wf(before.requests(rid), before.upgrader(rid), v);
    assert((after.requests(rid), after.upgrader(rid)) == released(
        before.requests(rid),
        before.upgrader(rid),
        v,
    ));
    if after.waits_for(v, t) {
        let k = choose|k: RID| waits(#[trigger] after.requests(k), v) && holds(after.requests(k), t);
        before.lemma_queues_wf(k);
        lemma_released_wf(before.requests(k), before.upgrader(k), v);
        assert((after.requests(k), after.upgrader(k)) == released(before.requests(k), before.upgrader(k), v));
        let q = after.requests(k);
        let i = choose|i: int| 0 <= i < q.len() && (#[trigger] q[i]).txn_id == v && !q[i].granted;
        assert(has_request(q, v));
    }
    if after.waits_for(t, v) {
        let k = choose|k: RID| waits(#[trigger] after.requests(k), t) && holds(after.requests(k), v);
        before.lemma_queues_wf(k);
        lemma_released_wf(before.requests(k), before.upgrader(k), v);
        assert((after.requests(k), after.upgrader(k)) == released(before.requests(k), before.upgrader(k), v));
        let q = after.requests(k);
        let i = choose|i: int| 0 <= i < q.len() && (#[trigger] q[i]).txn_id == v && q[i].granted;
        assert(has_request(q, v));
    }
}

/// Deadlock detection shrinks the lock table: a pass that finds a victim
/// makes no queue longer, and makes a queue shorter in which the victim
/// waited.
pub proof fn lemma_detection_shrinks(before: LockMgr, after: LockMgr, v: TxID)
    requires
        before.wf(),
        detected(before, after, Some(v)),
    ensures
        forall|rid: RID| (#[trigger] after.requests(rid)).len() <= before.requests(rid).len(),
        exists|rid: RID|
            waits(before.requests(rid), v) && (#[trigger] after.requests(rid)).len() < before.requests(
                rid,
            ).len(),
{
    assert forall|rid: RID| (#[trigger] after.requests(rid)).len() <= before.requests(rid).len() by {
        assert((after.requests(rid), after.upgrader(rid)) == released(
            before.requests(rid),
            before.upgrader(rid),
            v,
        ));
    }
    let w = choose|w: Seq<TxID>|
        #![trigger is_least_lasso(before.wait_fn(), w)]
        is_least_lasso(before.wait_fn(), w) && is_largest(lasso_cycle(w), v);
    lemma_lasso_cycle(before.wait_fn(), w);
    let c = lasso_cycle(w);
    let i = choose|i: int| 0 <= i < c.len() && c[i] == v;
    let next = if i < c.len() - 1 {
        c[i + 1]
    } else {
        c[0]
    };
    assert(before.waits_for(v, next)) by {
        if i < c.len() - 1 {
            assert(linked(before.wait_fn(), c, i));
        }
    }
    let rid = choose|rid: RID| waits(#[trigger] before.requests(rid), v) && holds(before.requests(rid), next);
    let q = before.requests(rid);
    let k = choose|k: int| 0 <= k < q.len() && (#[trigger] q[k]).txn_id == v && !q[k].granted;
    assert(has_request(q, v));
    assert((after.requests(rid), after.upgrader(rid)) == released(q, before.upgrader(rid), v));
}

/// The lock table.
pub struct LockMgr {
    lock_table: HashMap<RID, LockRequestQueue>,
    rows: Vec<RID>,
    victims: RowSet,
}

impl LockMgr {
    /// The requests on `rid`, oldest first.
    pub closed spec fn requests(&self, rid: RID) -> Seq<LockRq> {
        if self.lock_table@.contains_key(rid) {
            self.lock_table@[rid].requests()
        } else {
            Seq::<LockRq>::empty()
        }
    }

    /// The transaction whose upgrade is pending on `rid`, if any.
    pub closed spec fn upgrader(&self, rid: RID) -> Option<TxID> {
        if self.lock_table@.contains_key(rid) {
            self.lock_table@[rid].upgrader()
        } else {
            None
        }
    }

    /// Whether deadlock detection has chosen `t` as a victim that has not
    /// been told yet.
    pub closed spec fn is_victim(&self, t: TxID) -> bool {
        self.victims@.contains(t as RID)
    }

    /// Whether the table has a queue for `rid`.
    pub closed spec fn has_queue(&self, rid: RID) -> bool {
        self.lock_table@.contains_key(rid)
    }

    /// Every queue is well formed, and the table knows its rows.
    pub closed spec fn wf(&self) -> bool {
        &&& forall|k: RID| #[trigger] self.lock_table@.contains_key(k) ==> self.lock_table@[k].wf()
        &&& forall|k: RID| #[trigger] self.lock_table@.contains_key(k) ==> self.rows@.contains(k)
        &&& self.victims.wf()
    }

    /// In a well-formed table the requests on every row satisfy `queue_wf`.
    pub proof fn lemma_queues_wf(&self, rid: RID)
        requires
            self.wf(),
        ensures
            queue_wf(self.requests(rid), self.upgrader(rid)),
    {
        if !self.lock_table@.contains_key(rid) {
            lemma_empty_wf();
        }
    }

    /// Mutual exclusion: a transaction that holds an exclusive lock on a row
    /// is the only one that holds a lock on it.
    pub proof fn lemma_exclusive_alone(&self, rid: RID, i: int, j: int)
        requires
            self.wf(),
            0 <= i < self.requests(rid).len(),
            0 <= j < self.requests(rid).len(),
            self.requests(rid)[i].granted,
            self.requests(rid)[i].lock_mode == LockMode::Exclusive,
            self.requests(rid)[j].granted,
        ensures
            i == j,
    {
        self.lemma_queues_wf(rid);
        lemma_mutual_exclusion(self.requests(rid), self.upgrader(rid), i, j);
    }

    /// First come, first served: a request that was made after a
    /// conflicting one on the same row does not hold the lock while the
    /// earlier one is in the queue, unless the earlier one is a pending
    /// upgrade.
    pub proof fn lemma_first_come(&self, rid: RID, i: int, j: int)
        requires
            self.wf(),
            0 <= i < j < self.requests(rid).len(),
            !compatible(self.requests(rid)[i].lock_mode, self.requests(rid)[j].lock_mode),
            self.upgrader(rid) != Some(self.requests(rid)[i].txn_id),
        ensures
            !self.requests(rid)[j].granted,
    {
        self.lemma_queues_wf(rid);
        lemma_fifo(self.requests(rid), self.upgrader(rid), i, j);
    }

    /// Whether `t` waits for a lock that `u` holds: on some row, `t` has a
    /// request that waits and `u` one that is granted.
    pub open spec fn waits_for(&self, t: TxID, u: TxID) -> bool {
        exists|rid: RID| waits(#[trigger] self.requests(rid), t) && holds(self.requests(rid), u)
    }

    /// Whether the requests on every row but `rid` are those of `other`.
    pub open spec fn same_queues_except(&self, other: LockMgr, rid: RID) -> bool {
        forall|k: RID|
            k != rid ==> #[trigger] self.requests(k) == other.requests(k) && self.upgrader(k)
                == other.upgrader(k)
    }

    /// Whether the requests on every row are those of `other`.
    pub open spec fn same_queues(&self, other: LockMgr) -> bool {
        forall|k: RID| #[trigger] self.requests(k) == other.requests(k) && self.upgrader(k) == other.upgrader(k)
    }

    /// Whether the victims are those of `other`.
    pub open spec fn same_victims(&self, other: LockMgr) -> bool {
        forall|t: TxID| self.is_victim(t) == other.is_victim(t)
    }

    /// Whether the victims are those of `other` without `id`.
    pub open spec fn victims_without(&self, other: LockMgr, id: TxID) -> bool {
        forall|t: TxID| self.is_victim(t) <==> other.is_victim(t) && t != id
    }

    /// A lock table without requests and victims.
    pub fn new() -> (m: LockMgr)
        ensures
            m.wf(),
            forall|rid: RID| #[trigger] m.requests(rid) == Seq::<LockRq>::empty() && m.upgrader(rid).is_none(),
            forall|t: TxID| !m.is_victim(t),
    {
        LockMgr { lock_table: HashMap::new(), rows: Vec::new(), victims: RowSet::new() }
    }

    /// Whether deadlock detection has chosen `id` as a victim that has not
    /// been told yet.
    pub fn victim(&self, id: TxID) -> (b: bool)
        ensures
            b == self.is_victim(id),
    {
        self.victims.contains(id as RID)
    }

    /// Forgets that `id` is a victim. The queues stay as they are.
    pub fn clear_victim(&mut self, id: TxID)
        requires
            old(self).wf(),
        ensures
            final(self).wf(),
            final(self).same_queues(*old(self)),
            final(self).victims_without(*old(self), id),
    {
        self.victims.remove(id as RID);
    }

    /// The queue of `rid`, if the table has one.
    pub fn get_queue(&self, rid: RID) -> (q: Option<&LockRequestQueue>)
        ensures
            q is Some <==> self.has_queue(rid),
            q matches Some(queue) ==> queue.requests() == self.requests(rid) && queue.upgrader()
                == self.upgrader(rid),
            q is None ==> self.requests(rid) == Seq::<LockRq>::empty() && self.upgrader(rid).is_none(),
    {
        self.lock_table.get(&rid)
    }

    /// Takes the queue of `rid` out of the table; an empty one if the table
    /// has none.
    fn take_queue(&mut self, rid: RID) -> (q: LockRequestQueue)
        requires
            old(self).wf(),
        ensures
            q.wf(),
            q.requests() == old(self).requests(rid),
            q.upgrader() == old(self).upgrader(rid),
            final(self).lock_table@ == old(self).lock_table@.remove(rid),
            final(self).rows@.contains(rid),
            old(self).has_queue(rid) ==> final(self).rows == old(self).rows,
            final(self).wf(),
            final(self).victims == old(self).victims,
    {
        match self.lock_table.remove(&rid) {
            Some(q) => {
                assert(old(self).lock_table@.contains_key(rid));
                assert forall|k: RID| #[trigger] self.lock_table@.contains_key(k) implies self.lock_table@[k].wf()
                    && self.rows@.contains(k) by {
                    assert(old(self).lock_table@.contains_key(k));
                }
                q
            },
            None => {
                self.rows.push(rid);
                assert(self.rows@[self.rows@.len() - 1] == rid);
                assert forall|k: RID| #[trigger] self.lock_table@.contains_key(k) implies self.lock_table@[k].wf()
                    && self.rows@.contains(k) by {
                    assert(old(self).lock_table@.contains_key(k));
                    let i = choose|i: int| 0 <= i < old(self).rows@.len() && old(self).rows@[i] == k;
                    assert(self.rows@[i] == k);
                }
                proof {
                    lemma_empty_wf();
                }
                LockRequestQueue::new()
            },
        }
    }

    /// Puts the queue of `rid` back into the table.
    fn put_queue(&mut self, rid: RID, q: LockRequestQueue)
        requires
            old(self).wf(),
            old(self).rows@.contains(rid),
            q.wf(),
        ensures
            final(self).wf(),
            final(self).lock_table@ == old(self).lock_table@.insert(rid, q),
            final(self).victims == old(self).victims,
            final(self).rows == old(self).rows,
    {
        self.lock_table.insert(rid, q);
        assert forall|k: RID| #[trigger] self.lock_table@.contains_key(k) implies self.lock_table@[k].wf()
            && self.rows@.contains(k) by {
            if k != rid {
                assert(old(self).lock_table@.contains_key(k));
            }
        }
    }

    /// Decides what can be decided before the queue is looked at, and aborts
    /// the transaction where the verdict says so.
    fn entry_check(&mut self, txn: &mut Txn, mode: LockMode) -> (v: Option<LockError>)
        requires
            old(self).wf(),
            old(txn).wf(),
        ensures
            final(self).wf(),
            final(txn).wf(),
            v == entry_verdict(*old(txn), old(self).is_victim(old(txn).txn_id()), mode),
            final(self).lock_table == old(self).lock_table,
            final(self).rows == old(self).rows,
            final(txn).same_identity(*old(txn)),
            final(txn).phase() == old(txn).phase(),
            final(txn).same_locks(*old(txn)),
            v is None ==> *final(txn) == *old(txn) && *final(self) == *old(self),
            v is Some ==> if old(txn).ended() == TxnOutcome::Running {
                final(txn).ended() == TxnOutcome::Aborted && final(self).victims_without(
                    *old(self),
                    old(txn).txn_id(),
                )
            } else {
                final(txn).ended() == old(txn).ended() && final(self).same_victims(*old(self))
            },
    {
        let id: TxID = txn.id();
        if txn.outcome() != TxnOutcome::Running {
            return Some(LockError::TransactionEnded);
        }
        if self.victims.contains(id as RID) {
            self.victims.remove(id as RID);
            txn.abort();
            return Some(LockError::DeadlockVictim);
        }
        if mode == LockMode::Shared && txn.isolation_level() == IsolationLevel::ReadUncommitted {
            txn.abort();
            return Some(LockError::IsolationViolation);
        }
        if txn.state() == TwoPLState::Shrinking {
            txn.abort();
            return Some(LockError::PhaseViolation);
        }
        None
    }

    /// Answers a request of `txn` for a lock in `mode` on `rid`.
    fn acquire(&mut self, txn: &mut Txn, rid: RID, mode: LockMode) -> (r: LockReply)
        requires
            old(self).wf(),
            old(txn).wf(),
        ensures
            final(self).wf(),
            final(txn).wf(),
            acquired(*old(self), *old(txn), *final(self), *final(txn), rid, mode, r),
    {
        let id: TxID = txn.id();
        match self.entry_check(txn, mode) {
            Some(e) => {
                return LockReply::Failed(e);
            },
            None => {},
        }
        let exclusive: bool = mode == LockMode::Exclusive;
        if txn.x_locked(rid) || (!exclusive && txn.s_locked(rid)) {
            return LockReply::Granted;
        }
        if txn.s_locked(rid) {
            return LockReply::Failed(LockError::LockConflict);
        }
        let found: Option<LockRq> = match self.lock_table.get(&rid) {
            Some(q) => match q.find(id) {
                Some(i) => Some(q.get(i)),
                None => None,
            },
            None => None,
        };
        match found {
            Some(rq) => {
                if rq.granted {
                    txn.record_lock(rid, rq.lock_mode == LockMode::Exclusive);
                    if exclusive && rq.lock_mode == LockMode::Shared {
                        LockReply::Failed(LockError::LockConflict)
                    } else {
                        LockReply::Granted
                    }
                } else {
                    LockReply::Waiting
                }
            },
            None => {
                let mut q = self.take_queue(rid);
                let granted: bool = q.enqueue(id, mode);
                self.put_queue(rid, q);
                if granted {
                    txn.record_lock(rid, exclusive);
                    LockReply::Granted
                } else {
                    LockReply::Waiting
                }
            },
        }
    }

    /// Asks for a shared lock on `rid`. A transaction that reads
    /// uncommitted data takes no shared locks: it is aborted.
    pub fn lock_s(&mut self, txn: &mut Txn, rid: RID) -> (r: LockReply)
        requires
            old(self).wf(),
            old(txn).wf(),
        ensures
            final(self).wf(),
            final(txn).wf(),
            acquired(*old(self), *old(txn), *final(self), *final(txn), rid, LockMode::Shared, r),
    {
        self.acquire(txn, rid, LockMode::Shared)
    }

    /// Asks for an exclusive lock on `rid`.
    pub fn lock_x(&mut self, txn: &mut Txn, rid: RID) -> (r: LockReply)
        requires
            old(self).wf(),
            old(txn).wf(),
        ensures
            final(self).wf(),
            final(txn).wf(),
            acquired(*old(self), *old(txn), *final(self), *final(txn), rid, LockMode::Exclusive, r),
    {
        self.acquire(txn, rid, LockMode::Exclusive)
    }

    /// Asks to upgrade the shared lock of `txn` on `rid` to an exclusive one.
    /// Only one upgrade can be pending on a row.
    pub fn upgrade_lock(&mut self, txn: &mut Txn, rid: RID) -> (r: LockReply)
        requires
            old(self).wf(),
            old(txn).wf(),
        ensures
            final(self).wf(),
            final(txn).wf(),
            upgrade_asked(*old(self), *old(txn), *final(self), *final(txn), rid, r),
    {
        let id: TxID = txn.id();
        match self.entry_check(txn, LockMode::Exclusive) {
            Some(e) => {
                return LockReply::Failed(e);
            },
            None => {},
        }
        if txn.x_locked(rid) {
            return LockReply::Granted;
        }
        let found: Option<(LockRq, bool)> = match self.lock_table.get(&rid) {
            Some(q) => match q.find(id) {
                Some(i) => Some((q.get(i), q.get_upgrading().is_some())),
                None => None,
            },
            None => None,
        };
        match found {
            None => LockReply::Failed(LockError::LockConflict),
            Some(state) => {
                let rq: LockRq = state.0;
                if rq.lock_mode == LockMode::Exclusive {
                    if rq.granted {
                        txn.record_lock(rid, true);
                        LockReply::Granted
                    } else {
                        LockReply::Waiting
                    }
                } else if !rq.granted || state.1 {
                    LockReply::Failed(LockError::LockConflict)
                } else {
                    let mut q = self.take_queue(rid);
                    let granted: bool = q.upgrade(id);
                    self.put_queue(rid, q);
                    if granted {
                        txn.record_lock(rid, true);
                        LockReply::Granted
                    } else {
                        LockReply::Waiting
                    }
                }
            },
        }
    }

    /// Gives back the lock of `txn` on `rid`, or withdraws its request if it
    /// still waits, and grants what that request kept waiting.
    pub fn unlock(&mut self, txn: &mut Txn, rid: RID) -> (r: bool)
        requires
            old(self).wf(),
            old(txn).wf(),
        ensures
            final(self).wf(),
            final(txn).wf(),
            unlocked(*old(self), *old(txn), *final(self), *final(txn), rid, r),
    {
        let id: TxID = txn.id();
        txn.record_release(rid);
        let present: bool = match self.lock_table.get(&rid) {
            Some(q) => q.find(id).is_some(),
            None => false,
        };
        if present {
            let mut q = self.take_queue(rid);
            q.release(id);
            self.put_queue(rid, q);
            true
        } else {
            proof {
                old(self).lemma_queues_wf(rid);
                lemma_released_absent(old(self).requests(rid), old(self).upgrader(rid), id);
            }
            false
        }
    }

    /// The waits-for relation.
    pub open spec fn wait_fn(&self) -> spec_fn(TxID, TxID) -> bool {
        |t: TxID, u: TxID| self.waits_for(t, u)
    }

    /// The waits-for graph of the lock table: an edge for every pair of a
    /// transaction that waits on a row and one that holds a lock on it.
    pub fn build_graph(&self) -> (g: WaitGraph)
        requires
            self.wf(),
        ensures
            g.wf(),
            forall|a: TxID, b: TxID| g.has_edge(a, b) <==> self.waits_for(a, b),
    {
        let mut g = WaitGraph::new();
        let nrows: usize = self.rows.len();
        let mut ri: usize = 0;
        while ri < nrows
            invariant
                ri <= nrows == self.rows@.len(),
                self.wf(),
                g.wf(),
                forall|a: TxID, b: TxID| g.has_edge(a, b) ==> self.waits_for(a, b),
                forall|k: int, a: TxID, b: TxID|
                    0 <= k < ri && waits(#[trigger] self.requests(self.rows@[k]), a) && holds(
                        self.requests(self.rows@[k]),
                        b,
                    ) ==> #[trigger] g.has_edge(a, b),
            decreases nrows - ri,
        {
            let rid: RID = self.rows[ri];
            match self.lock_table.get(&rid) {
                Some(queue) => {
                    let ghost q = queue.requests();
                    assert(q == self.requests(rid));
                    let n: usize = queue.len();
                    let mut pi: usize = 0;
                    while pi < n
                        invariant
                            pi <= n == q.len(),
                            q == queue.requests(),
                            q == self.requests(rid),
                            rid == self.rows@[ri as int],
                            ri < nrows == self.rows@.len(),
                            g.wf(),
                            forall|a: TxID, b: TxID| g.has_edge(a, b) ==> self.waits_for(a, b),
                            forall|k: int, a: TxID, b: TxID|
                                0 <= k < ri && waits(#[trigger] self.requests(self.rows@[k]), a) && holds(
                                    self.requests(self.rows@[k]),
                                    b,
                                ) ==> #[trigger] g.has_edge(a, b),
                            forall|x: int, y: int|
                                0 <= x < pi && 0 <= y < n && !(#[trigger] q[x]).granted && (#[trigger] q[y]).granted
                                    ==> g.has_edge(q[x].txn_id, q[y].txn_id),
                        decreases n - pi,
                    {
                        let waiter: LockRq = queue.get(pi);
                        if !waiter.granted {
                            let mut gi: usize = 0;
                            while gi < n
                                invariant
                                    gi <= n == q.len(),
                                    pi < n,
                                    q == queue.requests(),
                                    q == self.requests(rid),
                                    waiter == q[pi as int],
                                    !waiter.granted,
                                    g.wf(),
                                    forall|a: TxID, b: TxID| g.has_edge(a, b) ==> self.waits_for(a, b),
                                    forall|k: int, a: TxID, b: TxID|
                                        0 <= k < ri && waits(#[trigger] self.requests(self.rows@[k]), a) && holds(
                                            self.requests(self.rows@[k]),
                                            b,
                                        ) ==> #[trigger] g.has_edge(a, b),
                                    forall|x: int, y: int|
                                        0 <= x < pi && 0 <= y < n && !(#[trigger] q[x]).granted && (#[trigger] q[y]).granted
                                            ==> g.has_edge(q[x].txn_id, q[y].txn_id),
                                    forall|y: int|
                                        0 <= y < gi && (#[trigger] q[y]).granted ==> g.has_edge(
                                            waiter.txn_id,
                                            q[y].txn_id,
                                        ),
                                decreases n - gi,
                            {
                                let holder: LockRq = queue.get(gi);
                                if holder.granted {
                                    proof {
                                        assert(q[pi as int].txn_id == waiter.txn_id && !q[pi as int].granted);
                                        assert(q[gi as int].txn_id == holder.txn_id && q[gi as int].granted);
                                        assert(waits(self.requests(rid), waiter.txn_id));
                                        assert(holds(self.requests(rid), holder.txn_id));
                                        assert(self.waits_for(waiter.txn_id, holder.txn_id));
                                    }
                                    g.add_edge(waiter.txn_id, holder.txn_id);
                                }
                                gi = gi + 1;
                            }
                        }
                        pi = pi + 1;
                    }
                    proof {
                        assert forall|a: TxID, b: TxID|
                            waits(self.requests(rid), a) && holds(self.requests(rid), b) implies g.has_edge(a, b) by {
                            let x = choose|x: int| 0 <= x < q.len() && (#[trigger] q[x]).txn_id == a && !q[x].granted;
                            let y = choose|y: int| 0 <= y < q.len() && (#[trigger] q[y]).txn_id == b && q[y].granted;
                            assert(!q[x].granted && q[y].granted);
                        }
                    }
                },
                None => {
                    proof {
                        assert(self.requests(rid).len() == 0);
                    }
                },
            }
            ri = ri + 1;
        }
        proof {
            assert forall|a: TxID, b: TxID| self.waits_for(a, b) implies g.has_edge(a, b) by {
                let rid = choose|rid: RID| waits(#[trigger] self.requests(rid), a) && holds(self.requests(rid), b);
                assert(self.lock_table@.contains_key(rid));
                let k = choose|k: int| 0 <= k < self.rows@.len() && self.rows@[k] == rid;
                assert(waits(self.requests(self.rows@[k]), a));
            }
        }
        g
    }

    /// The pairs of a transaction that waits and one that it waits for, each
    /// once, in the order of the identifiers that are waited for.
    pub fn get_edge_list(&self) -> (list: Vec<(TxID, TxID)>)
        requires
            self.wf(),
        ensures
            forall|a: TxID, b: TxID| self.waits_for(a, b) <==> list@.contains((a, b)),
            list@.no_duplicates(),
            forall|i: int, j: int| 0 <= i < j < list@.len() ==> (#[trigger] list@[i]).1 <= (#[trigger] list@[j]).1,
    {
        let g = self.build_graph();
        g.get_edge_list()
    }

    /// Takes the requests of `v` out of every queue and grants what they kept
    /// waiting.
    fn remove_requests(&mut self, v: TxID)
        requires
            old(self).wf(),
        ensures
            final(self).wf(),
            final(self).same_victims(*old(self)),
            final(self).victims == old(self).victims,
            forall|rid: RID|
                (#[trigger] final(self).requests(rid), final(self).upgrader(rid)) == released(
                    old(self).requests(rid),
                    old(self).upgrader(rid),
                    v,
                ),
    {
        let nrows: usize = self.rows.len();
        let mut i: usize = 0;
        while i < nrows
            invariant
                i <= nrows == self.rows@.len(),
                self.rows == old(self).rows,
                self.victims == old(self).victims,
                old(self).wf(),
                self.wf(),
                forall|k: RID| self.lock_table@.contains_key(k) == old(self).lock_table@.contains_key(k),
                forall|rid: RID|
                    (#[trigger] self.requests(rid), self.upgrader(rid)) == (
                        old(self).requests(rid),
                        old(self).upgrader(rid),
                    ) || (self.requests(rid), self.upgrader(rid)) == released(
                        old(self).requests(rid),
                        old(self).upgrader(rid),
                        v,
                    ),
                forall|k: int|
                    0 <= k < i ==> (#[trigger] self.requests(self.rows@[k]), self.upgrader(self.rows@[k]))
                        == released(old(self).requests(self.rows@[k]), old(self).upgrader(self.rows@[k]), v),
            decreases nrows - i,
        {
            let rid: RID = self.rows[i];
            let ghost now = *self;
            let present: bool = match self.lock_table.get(&rid) {
                Some(q) => q.find(v).is_some(),
                None => false,
            };
            proof {
                old(self).lemma_queues_wf(rid);
                lemma_released_wf(old(self).requests(rid), old(self).upgrader(rid), v);
                lemma_released_absent_or(old(self).requests(rid), old(self).upgrader(rid), v);
                assert((now.requests(rid), now.upgrader(rid)) == (old(self).requests(rid), old(self).upgrader(rid))
                    || (now.requests(rid), now.upgrader(rid)) == released(
                    old(self).requests(rid),
                    old(self).upgrader(rid),
                    v,
                ));
            }
            if present {
                let mut q = self.take_queue(rid);
                q.release(v);
                self.put_queue(rid, q);
            }
            proof {
                assert((self.requests(rid), self.upgrader(rid)) == released(
                    old(self).requests(rid),
                    old(self).upgrader(rid),
                    v,
                ));
                assert forall|k: RID| k != rid implies #[trigger] self.requests(k) == now.requests(k)
                    && self.upgrader(k) == now.upgrader(k) by {}
                assert forall|k: RID|
                    (#[trigger] self.requests(k), self.upgrader(k)) == (old(self).requests(k), old(self).upgrader(k))
                        || (self.requests(k), self.upgrader(k)) == released(
                        old(self).requests(k),
                        old(self).upgrader(k),
                        v,
                    ) by {
                    if k != rid {
                        assert((now.requests(k), now.upgrader(k)) == (old(self).requests(k), old(self).upgrader(k))
                            || (now.requests(k), now.upgrader(k)) == released(
                            old(self).requests(k),
                            old(self).upgrader(k),
                            v,
                        ));
                    }
                }
                assert forall|k: int| 0 <= k < i + 1 implies (#[trigger] self.requests(self.rows@[k]), self.upgrader(
                    self.rows@[k],
                )) == released(old(self).requests(self.rows@[k]), old(self).upgrader(self.rows@[k]), v) by {
                    if self.rows@[k] != rid {
                        assert((now.requests(now.rows@[k]), now.upgrader(now.rows@[k])) == released(
                            old(self).requests(now.rows@[k]),
                            old(self).upgrader(now.rows@[k]),
                            v,
                        ));
                    }
                }
            }
            i = i + 1;
        }
        proof {
            assert forall|rid: RID|
                (#[trigger] self.requests(rid), self.upgrader(rid)) == released(
                    old(self).requests(rid),
                    old(self).upgrader(rid),
                    v,
                ) by {
                if old(self).lock_table@.contains_key(rid) {
                    let k = choose|k: int| 0 <= k < self.rows@.len() && self.rows@[k] == rid;
                    assert((self.requests(self.rows@[k]), self.upgrader(self.rows@[k])) == released(
                        old(self).requests(self.rows@[k]),
                        old(self).upgrader(self.rows@[k]),
                        v,
                    ));
                } else {
                    old(self).lemma_queues_wf(rid);
                    lemma_released_absent_or(old(self).requests(rid), old(self).upgrader(rid), v);
                }
            }
        }
    }

    /// One pass of deadlock detection: looks for a cycle in the waits-for
    /// graph and, if there is one, aborts the newest transaction on the
    /// cycle that the search finds.
    pub fn run_cycle_detection(&mut self) -> (r: Option<TxID>)
        requires
            old(self).wf(),
        ensures
            final(self).wf(),
            detected(*old(self), *final(self), r),
    {
        let g = self.build_graph();
        proof {
            assert(g.edge_fn() =~= self.wait_fn());
        }
        match g.has_cycle() {
            None => None,
            Some(v) => {
                self.remove_requests(v);
                let ghost removed = *self;
                self.victims.insert(v as RID);
                proof {
                    assert forall|rid: RID|
                        (#[trigger] self.requests(rid), self.upgrader(rid)) == released(
                            old(self).requests(rid),
                            old(self).upgrader(rid),
                            v,
                        ) by {
                        assert((removed.requests(rid), removed.upgrader(rid)) == released(
                            old(self).requests(rid),
                            old(self).upgrader(rid),
                            v,
                        ));
                    }
                }
                Some(v)
            },
        }
    }
}

/// A queue from which `t` is gone stays as it is when `t` gives up its
/// request once more.
proof fn lemma_released_absent_or(q: Seq<LockRq>, upgrader: Option<TxID>, t: TxID)
    requires
        queue_wf(q, upgrader),
    ensures
        !has_request(q, t) ==> released(q, upgrader, t) == (q, upgrader),
        !has_request(released(q, upgrader, t).0, t),
{
    lemma_released_wf(q, upgrader, t);
    if !has_request(q, t) {
        lemma_released_absent(q, upgrader, t);
    }
}

} // verus!
