//! The queue of lock requests on one row, and the policy that grants them.

use vstd::prelude::*;
use std::collections::VecDeque;
use crate::types::TxID;

verus! {

/// The mode of a lock.
#[derive(Clone, Copy, Debug, PartialEq, Eq, Structural)]
pub enum LockMode {
    Shared,
    Exclusive,
}

/// One request in the queue of a row.
#[derive(Clone, Copy, Debug, PartialEq, Eq, Structural)]
pub struct LockRq {
    /// The transaction that asks.
    pub txn_id: TxID,
    /// The mode it asks for.
    pub lock_mode: LockMode,
    /// Whether it holds the lock.
    pub granted: bool,
}

/// Two locks can be held together only if both are shared.
pub open spec fn compatible(a: LockMode, b: LockMode) -> bool {
    a == LockMode::Shared && b == LockMode::Shared
}

/// The granting policy: request `j` can be granted if no pending request
/// ahead of it conflicts with it, and no granted lock conflicts with it.
pub open spec fn grantable(q: Seq<LockRq>, j: int) -> bool {
    &&& forall|i: int| 0 <= i < j && !(#[trigger] q[i]).granted ==> compatible(q[i].lock_mode, q[j].lock_mode)
    &&& forall|k: int|
        0 <= k < q.len() && k != j && (#[trigger] q[k]).granted ==> compatible(
            q[k].lock_mode,
            q[j].lock_mode,
        )
}

/// The queue after every request that the policy allows has been granted.
pub open spec fn regranted(q: Seq<LockRq>) -> Seq<LockRq> {
    Seq::new(q.len(), |j: int| LockRq { granted: q[j].granted || grantable(q, j), ..q[j] })
}

/// Whether `t` has a request in `q`.
pub open spec fn has_request(q: Seq<LockRq>, t: TxID) -> bool {
    exists|i: int| 0 <= i < q.len() && (#[trigger] q[i]).txn_id == t
}

/// The place of the request of `t` in `q`, if it has one.
pub open spec fn index_of(q: Seq<LockRq>, t: TxID) -> int {
    choose|i: int| 0 <= i < q.len() && (#[trigger] q[i]).txn_id == t
}

/// Whether `t` holds a lock in `q`.
pub open spec fn holds(q: Seq<LockRq>, t: TxID) -> bool {
    exists|i: int| 0 <= i < q.len() && (#[trigger] q[i]).txn_id == t && q[i].granted
}

/// Whether `t` waits in `q`.
pub open spec fn waits(q: Seq<LockRq>, t: TxID) -> bool {
    exists|i: int| 0 <= i < q.len() && (#[trigger] q[i]).txn_id == t && !q[i].granted
}

/// Whether `t` has a pending upgrade in `q`: a request for an exclusive lock
/// that waits.
pub open spec fn upgrade_pending(q: Seq<LockRq>, t: TxID) -> bool {
    exists|i: int|
        0 <= i < q.len() && (#[trigger] q[i]).txn_id == t && q[i].lock_mode == LockMode::Exclusive
            && !q[i].granted
}

/// The order that a queue keeps, where its pending upgrade, if any, is that
/// of `upgrader`:
/// - a transaction has at most one request;
/// - locks that are held together are compatible;
/// - a request holds the lock only if no request ahead of it conflicts with
///   it, except a pending upgrade;
/// - `upgrader` names a transaction only while its upgrade is pending.
pub open spec fn orderly(q: Seq<LockRq>, upgrader: Option<TxID>) -> bool {
    &&& forall|i: int, j: int|
        0 <= i < j < q.len() ==> (#[trigger] q[i]).txn_id != (#[trigger] q[j]).txn_id
    &&& forall|i: int, j: int|
        0 <= i < q.len() && 0 <= j < q.len() && i != j && (#[trigger] q[i]).granted && (#[trigger] q[j]).granted
            ==> compatible(q[i].lock_mode, q[j].lock_mode)
    &&& forall|i: int, j: int|
        0 <= i < j < q.len() && (#[trigger] q[j]).granted && !compatible(
            (#[trigger] q[i]).lock_mode,
            q[j].lock_mode,
        ) ==> !q[i].granted && upgrader == Some(q[i].txn_id)
    &&& upgrader matches Some(t) ==> upgrade_pending(q, t)
}

/// No request waits that the policy allows to be granted.
pub open spec fn settled(q: Seq<LockRq>) -> bool {
    forall|j: int| 0 <= j < q.len() && !(#[trigger] q[j]).granted ==> !grantable(q, j)
}

/// The invariant of a queue: it is orderly and settled.
pub open spec fn queue_wf(q: Seq<LockRq>, upgrader: Option<TxID>) -> bool {
    orderly(q, upgrader) && settled(q)
}

/// The queue after `t` has asked for `mode`: its request stands last, and is
/// granted at once if it is compatible with every request in the queue.
pub open spec fn enqueued(q: Seq<LockRq>, t: TxID, mode: LockMode) -> Seq<LockRq> {
    q.push(
        LockRq {
            txn_id: t,
            lock_mode: mode,
            granted: forall|i: int| 0 <= i < q.len() ==> compatible((#[trigger] q[i]).lock_mode, mode),
        },
    )
}

/// The queue without the request of `t`.
pub open spec fn without(q: Seq<LockRq>, t: TxID) -> Seq<LockRq> {
    if has_request(q, t) {
        q.remove(index_of(q, t))
    } else {
        q
    }
}

/// The pending upgrade after the requests of `q` were granted as far as the
/// policy allows: none if that of `upgrader` was granted.
pub open spec fn upgrader_after(q: Seq<LockRq>, upgrader: Option<TxID>) -> Option<TxID> {
    match upgrader {
        Some(t) => if upgrade_pending(regranted(q), t) {
            upgrader
        } else {
            None
        },
        None => None,
    }
}

/// The queue and its pending upgrade after `t` has given up its request:
/// the request is gone, and whoever it kept waiting is granted.
pub open spec fn released(q: Seq<LockRq>, upgrader: Option<TxID>, t: TxID) -> (Seq<LockRq>, Option<TxID>) {
    let rest = without(q, t);
    let up = if upgrader == Some(t) {
        None
    } else {
        upgrader
    };
    (regranted(rest), upgrader_after(rest, up))
}

/// The queue and its pending upgrade after `t`, which holds a shared lock,
/// has asked to upgrade it: its request asks for an exclusive lock at the
/// same place, and is granted at once if the policy allows.
pub open spec fn upgraded(q: Seq<LockRq>, t: TxID) -> (Seq<LockRq>, Option<TxID>) {
    let asked = q.update(
        index_of(q, t),
        LockRq { txn_id: t, lock_mode: LockMode::Exclusive, granted: false },
    );
    (regranted(asked), upgrader_after(asked, Some(t)))
}

/// Mutual exclusion: in a well-formed queue, a transaction that holds an
/// exclusive lock is the only one that holds a lock.
pub proof fn lemma_mutual_exclusion(q: Seq<LockRq>, upgrader: Option<TxID>, i: int, j: int)
    requires
        queue_wf(q, upgrader),
        0 <= i < q.len(),
        0 <= j < q.len(),
        q[i].granted,
        q[i].lock_mode == LockMode::Exclusive,
        q[j].granted,
    ensures
        i == j,
        q[j].txn_id == q[i].txn_id,
{
}

/// First come, first served: in a well-formed queue, a request that was
/// enqueued behind a conflicting one does not hold the lock while the
/// earlier one is in the queue, unless the earlier one is a pending upgrade.
pub proof fn lemma_fifo(q: Seq<LockRq>, upgrader: Option<TxID>, i: int, j: int)
    requires
        queue_wf(q, upgrader),
        0 <= i < j < q.len(),
        !compatible(q[i].lock_mode, q[j].lock_mode),
        upgrader != Some(q[i].txn_id),
    ensures
        !q[j].granted,
{
}

/// The empty queue is well formed.
pub proof fn lemma_empty_wf()
    ensures
        queue_wf(Seq::<LockRq>::empty(), None),
{
}

/// A new request keeps a queue well formed.
pub proof fn lemma_enqueued_wf(q: Seq<LockRq>, upgrader: Option<TxID>, t: TxID, mode: LockMode)
    requires
        queue_wf(q, upgrader),
        !has_request(q, t),
    ensures
        queue_wf(enqueued(q, t, mode), upgrader),
{
    let r = enqueued(q, t, mode);
    let n = q.len() as int;
    assert forall|i: int, j: int| 0 <= i < j < r.len() implies (#[trigger] r[i]).txn_id != (#[trigger] r[j]).txn_id by {
        if j == n {
            assert(q[i].txn_id != t);
        } else {
            assert(q[i].txn_id != q[j].txn_id);
        }
    }
    assert forall|i: int, j: int|
        0 <= i < r.len() && 0 <= j < r.len() && i != j && (#[trigger] r[i]).granted && (#[trigger] r[j]).granted implies compatible(
        r[i].lock_mode,
        r[j].lock_mode,
    ) by {
        if i == n {
            assert(compatible(q[j].lock_mode, mode));
        } else if j == n {
            assert(compatible(q[i].lock_mode, mode));
        } else {
            assert(q[i].granted && q[j].granted);
        }
    }
    assert forall|i: int, j: int|
        0 <= i < j < r.len() && (#[trigger] r[j]).granted && !compatible(
            (#[trigger] r[i]).lock_mode,
            r[j].lock_mode,
        ) implies !r[i].granted && upgrader == Some(r[i].txn_id) by {
        if j == n {
            assert(compatible(q[i].lock_mode, mode));
        } else {
            assert(q[j].granted && !compatible(q[i].lock_mode, q[j].lock_mode));
        }
    }
    if let Some(u) = upgrader {
        let k = choose|k: int|
            0 <= k < q.len() && (#[trigger] q[k]).txn_id == u && q[k].lock_mode == LockMode::Exclusive
                && !q[k].granted;
        assert(r[k].txn_id == u && r[k].lock_mode == LockMode::Exclusive && !r[k].granted);
    }
    assert forall|j: int| 0 <= j < r.len() && !(#[trigger] r[j]).granted implies !grantable(r, j) by {
        if grantable(r, j) {
            if j == n {
                assert forall|i: int| 0 <= i < q.len() implies compatible((#[trigger] q[i]).lock_mode, mode) by {
                    if r[i].granted {
                        assert(compatible(r[i].lock_mode, r[j].lock_mode));
                    } else {
                        assert(compatible(r[i].lock_mode, r[j].lock_mode));
                    }
                }
            } else {
                assert forall|i: int| 0 <= i < j && !(#[trigger] q[i]).granted implies compatible(
                    q[i].lock_mode,
                    q[j].lock_mode,
                ) by {
                    assert(!r[i].granted);
                }
                assert forall|k: int| 0 <= k < q.len() && k != j && (#[trigger] q[k]).granted implies compatible(
                    q[k].lock_mode,
                    q[j].lock_mode,
                ) by {
                    assert(r[k].granted);
                }
                assert(grantable(q, j));
            }
        }
    }
}

/// In a well-formed queue the request of a transaction is where `index_of`
/// says.
pub proof fn lemma_index_of(q: Seq<LockRq>, upgrader: Option<TxID>, i: int)
    requires
        orderly(q, upgrader),
        0 <= i < q.len(),
    ensures
        has_request(q, q[i].txn_id),
        index_of(q, q[i].txn_id) == i,
{
    let k = index_of(q, q[i].txn_id);
    assert(0 <= k < q.len() && q[k].txn_id == q[i].txn_id);
    if k < i {
        assert(q[k].txn_id != q[i].txn_id);
    } else if i < k {
        assert(q[i].txn_id != q[k].txn_id);
    }
}

/// Granting what the policy allows makes an orderly queue well formed.
pub proof fn lemma_regranted_wf(q: Seq<LockRq>, upgrader: Option<TxID>)
    requires
        orderly(q, upgrader),
    ensures
        queue_wf(regranted(q), upgrader_after(q, upgrader)),
{
    let r = regranted(q);
    let up = upgrader_after(q, upgrader);
    assert forall|j: int| 0 <= j < r.len() && !(#[trigger] r[j]).granted implies !grantable(r, j) by {
        if grantable(r, j) {
            assert forall|i: int| 0 <= i < j && !(#[trigger] q[i]).granted implies compatible(
                q[i].lock_mode,
                q[j].lock_mode,
            ) by {
                if r[i].granted {
                    assert(compatible(r[i].lock_mode, r[j].lock_mode));
                } else {
                    assert(compatible(r[i].lock_mode, r[j].lock_mode));
                }
            }
            assert forall|k: int| 0 <= k < q.len() && k != j && (#[trigger] q[k]).granted implies compatible(
                q[k].lock_mode,
                q[j].lock_mode,
            ) by {
                assert(r[k].granted);
            }
            assert(grantable(q, j));
        }
    }
    assert forall|i: int, j: int| 0 <= i < j < r.len() implies (#[trigger] r[i]).txn_id != (#[trigger] r[j]).txn_id by {
        assert(q[i].txn_id != q[j].txn_id);
    }
    assert forall|i: int, j: int|
        0 <= i < r.len() && 0 <= j < r.len() && i != j && (#[trigger] r[i]).granted && (#[trigger] r[j]).granted implies compatible(
        r[i].lock_mode,
        r[j].lock_mode,
    ) by {
        lemma_regranted_pair(q, i, j);
    }
    assert forall|i: int, j: int|
        0 <= i < j < r.len() && (#[trigger] r[j]).granted && !compatible(
            (#[trigger] r[i]).lock_mode,
            r[j].lock_mode,
        ) implies !r[i].granted && up == Some(r[i].txn_id) by {
        if !q[j].granted {
            assert(grantable(q, j));
            if q[i].granted {
                assert(compatible(q[i].lock_mode, q[j].lock_mode));
            } else {
                assert(compatible(q[i].lock_mode, q[j].lock_mode));
            }
        } else {
            assert(!q[i].granted && upgrader == Some(q[i].txn_id));
            if grantable(q, i) {
                assert(compatible(q[j].lock_mode, q[i].lock_mode));
            }
            let t = q[i].txn_id;
            let k = choose|k: int|
                0 <= k < q.len() && (#[trigger] q[k]).txn_id == t && q[k].lock_mode == LockMode::Exclusive
                    && !q[k].granted;
            lemma_index_of(q, upgrader, i);
            lemma_index_of(q, upgrader, k);
            assert(r[i].txn_id == t && r[i].lock_mode == LockMode::Exclusive && !r[i].granted);
        }
    }
}

/// Two locks that are held together after granting are compatible.
proof fn lemma_regranted_pair(q: Seq<LockRq>, i: int, j: int)
    requires
        forall|i: int, j: int|
            0 <= i < q.len() && 0 <= j < q.len() && i != j && (#[trigger] q[i]).granted && (#[trigger] q[j]).granted
                ==> compatible(q[i].lock_mode, q[j].lock_mode),
        0 <= i < q.len(),
        0 <= j < q.len(),
        i != j,
        regranted(q)[i].granted,
        regranted(q)[j].granted,
    ensures
        compatible(q[i].lock_mode, q[j].lock_mode),
{
    if q[i].granted && q[j].granted {
    } else if q[i].granted {
        assert(grantable(q, j));
        assert(compatible(q[i].lock_mode, q[j].lock_mode));
    } else if q[j].granted {
        assert(grantable(q, i));
        assert(compatible(q[j].lock_mode, q[i].lock_mode));
    } else if i < j {
        assert(grantable(q, j));
        assert(compatible(q[i].lock_mode, q[j].lock_mode));
    } else {
        assert(grantable(q, i));
        assert(compatible(q[j].lock_mode, q[i].lock_mode));
    }
}

/// Taking the request of `t` out keeps a queue orderly, and leaves `t`
/// without a request.
pub proof fn lemma_without_orderly(q: Seq<LockRq>, upgrader: Option<TxID>, t: TxID)
    requires
        orderly(q, upgrader),
    ensures
        orderly(
            without(q, t),
            if upgrader == Some(t) {
                None
            } else {
                upgrader
            },
        ),
        !has_request(without(q, t), t),
{
    let up = if upgrader == Some(t) {
        None
    } else {
        upgrader
    };
    if has_request(q, t) {
        let x = index_of(q, t);
        let r = q.remove(x);
        assert forall|k: int| 0 <= k < r.len() implies #[trigger] r[k] == q[if k < x {
            k
        } else {
            k + 1
        }] by {}
        assert forall|i: int, j: int| 0 <= i < j < r.len() implies (#[trigger] r[i]).txn_id != (#[trigger] r[j]).txn_id by {
            let a = if i < x { i } else { i + 1 };
            let b = if j < x { j } else { j + 1 };
            assert(q[a].txn_id != q[b].txn_id);
        }
        assert forall|i: int, j: int|
            0 <= i < r.len() && 0 <= j < r.len() && i != j && (#[trigger] r[i]).granted && (#[trigger] r[j]).granted implies compatible(
            r[i].lock_mode,
            r[j].lock_mode,
        ) by {
            let a = if i < x { i } else { i + 1 };
            let b = if j < x { j } else { j + 1 };
            assert(q[a].granted && q[b].granted);
        }
        assert forall|i: int, j: int|
            0 <= i < j < r.len() && (#[trigger] r[j]).granted && !compatible(
                (#[trigger] r[i]).lock_mode,
                r[j].lock_mode,
            ) implies !r[i].granted && up == Some(r[i].txn_id) by {
            let a = if i < x { i } else { i + 1 };
            let b = if j < x { j } else { j + 1 };
            assert(q[b].granted && !compatible(q[a].lock_mode, q[b].lock_mode));
            lemma_index_of(q, upgrader, a);
        }
        if let Some(u) = up {
            let k = choose|k: int|
                0 <= k < q.len() && (#[trigger] q[k]).txn_id == u && q[k].lock_mode == LockMode::Exclusive
                    && !q[k].granted;
            let m = if k < x { k } else { k - 1 };
            assert(r[m] == q[k]);
        }
        if has_request(r, t) {
            let m = index_of(r, t);
            let a = if m < x { m } else { m + 1 };
            lemma_index_of(q, upgrader, a);
        }
    } else {
        if let Some(u) = upgrader {
            if u == t {
                let k = choose|k: int|
                    0 <= k < q.len() && (#[trigger] q[k]).txn_id == u && q[k].lock_mode == LockMode::Exclusive
                        && !q[k].granted;
                assert(has_request(q, t));
            }
        }
    }
}

/// Giving up a request keeps a queue well formed, and leaves the
/// transaction without a request.
pub proof fn lemma_released_wf(q: Seq<LockRq>, upgrader: Option<TxID>, t: TxID)
    requires
        queue_wf(q, upgrader),
    ensures
        queue_wf(released(q, upgrader, t).0, released(q, upgrader, t).1),
        !has_request(released(q, upgrader, t).0, t),
{
    lemma_without_orderly(q, upgrader, t);
    let rest = without(q, t);
    let up = if upgrader == Some(t) {
        None
    } else {
        upgrader
    };
    lemma_regranted_wf(rest, up);
    if has_request(regranted(rest), t) {
        let m = index_of(regranted(rest), t);
        assert(rest[m].txn_id == t);
    }
}

/// Asking for an upgrade keeps a queue well formed.
pub proof fn lemma_upgraded_wf(q: Seq<LockRq>, t: TxID)
    requires
        queue_wf(q, None),
        has_request(q, t),
    ensures
        queue_wf(upgraded(q, t).0, upgraded(q, t).1),
{
    let u = index_of(q, t);
    let asked = q.update(u, LockRq { txn_id: t, lock_mode: LockMode::Exclusive, granted: false });
    assert forall|i: int, j: int| 0 <= i < j < asked.len() implies (#[trigger] asked[i]).txn_id != (#[trigger] asked[j]).txn_id by {
        assert(q[i].txn_id != q[j].txn_id);
    }
    assert forall|i: int, j: int|
        0 <= i < asked.len() && 0 <= j < asked.len() && i != j && (#[trigger] asked[i]).granted && (#[trigger] asked[j]).granted implies compatible(
        asked[i].lock_mode,
        asked[j].lock_mode,
    ) by {
        assert(q[i].granted && q[j].granted);
    }
    assert forall|i: int, j: int|
        0 <= i < j < asked.len() && (#[trigger] asked[j]).granted && !compatible(
            (#[trigger] asked[i]).lock_mode,
            asked[j].lock_mode,
        ) implies !asked[i].granted && Some(t) == Some(asked[i].txn_id) by {
        if i != u {
            assert(q[j].granted && !compatible(q[i].lock_mode, q[j].lock_mode));
        }
    }
    assert(asked[u].txn_id == t && asked[u].lock_mode == LockMode::Exclusive && !asked[u].granted);
    assert(orderly(asked, Some(t)));
    lemma_regranted_wf(asked, Some(t));
}

/// No starvation: a well-formed queue has granted all that the policy
/// allows, so granting again changes nothing.
pub proof fn lemma_settled_fixpoint(q: Seq<LockRq>, upgrader: Option<TxID>)
    requires
        queue_wf(q, upgrader),
    ensures
        regranted(q) == q,
        upgrader_after(q, upgrader) == upgrader,
{
    assert(regranted(q) =~= q);
}

/// Giving up a request that is not in the queue changes nothing.
pub proof fn lemma_released_absent(q: Seq<LockRq>, upgrader: Option<TxID>, t: TxID)
    requires
        queue_wf(q, upgrader),
        !has_request(q, t),
    ensures
        released(q, upgrader, t) == (q, upgrader),
{
    lemma_settled_fixpoint(q, upgrader);
    if upgrader == Some(t) {
        let k = choose|k: int|
            0 <= k < q.len() && (#[trigger] q[k]).txn_id == t && q[k].lock_mode == LockMode::Exclusive
                && !q[k].granted;
        assert(has_request(q, t));
    }
}

/// The lock requests on one row, in the order in which they were made.
pub struct LockRequestQueue {
    queue: VecDeque<LockRq>,
    upgrading: Option<TxID>,
}

impl LockRequestQueue {
    /// The requests, oldest first.
    pub closed spec fn requests(&self) -> Seq<LockRq> {
        self.queue@
    }

    /// The transaction whose upgrade is pending, if any.
    pub closed spec fn upgrader(&self) -> Option<TxID> {
        self.upgrading
    }

    /// The queue satisfies `queue_wf`.
    pub open spec fn wf(&self) -> bool {
        queue_wf(self.requests(), self.upgrader())
    }

    /// The empty queue.
    pub fn new() -> (q: LockRequestQueue)
        ensures
            q.wf(),
            q.requests() == Seq::<LockRq>::empty(),
            q.upgrader().is_none(),
    {
        LockRequestQueue { queue: VecDeque::new(), upgrading: None }
    }

    /// The number of requests.
    pub fn len(&self) -> (n: usize)
        ensures
            n == self.requests().len(),
    {
        self.queue.len()
    }

    /// Request number `i`.
    pub fn get(&self, i: usize) -> (rq: LockRq)
        requires
            i < self.requests().len(),
        ensures
            rq == self.requests()[i as int],
    {
        self.queue[i]
    }

    /// The transaction whose upgrade is pending, if any.
    pub fn get_upgrading(&self) -> (t: Option<TxID>)
        ensures
            t == self.upgrader(),
    {
        self.upgrading
    }

    /// The place of the request of `txn_id`, if it has one.
    pub fn find(&self, txn_id: TxID) -> (p: Option<usize>)
        ensures
            p is Some <==> has_request(self.requests(), txn_id),
            p matches Some(i) ==> i < self.requests().len() && self.requests()[i as int].txn_id == txn_id,
            p matches Some(i) ==> self.wf() ==> i == index_of(self.requests(), txn_id),
    {
        let n: usize = self.queue.len();
        let mut i: usize = 0;
        while i < n
            invariant
                i <= n == self.queue@.len(),
                forall|k: int| 0 <= k < i ==> (#[trigger] self.queue@[k]).txn_id != txn_id,
            decreases n - i,
        {
            if self.queue[i].txn_id == txn_id {
                proof {
                    if self.wf() {
                        lemma_index_of(self.requests(), self.upgrader(), i as int);
                    }
                }
                return Some(i);
            }
            i = i + 1;
        }
        None
    }

    /// Appends a request of `txn_id` for `mode`, granted at once if it is
    /// compatible with every request in the queue, and says whether it was.
    pub fn enqueue(&mut self, txn_id: TxID, mode: LockMode) -> (granted: bool)
        requires
            old(self).wf(),
            !has_request(old(self).requests(), txn_id),
        ensures
            final(self).wf(),
            final(self).requests() == enqueued(old(self).requests(), txn_id, mode),
            final(self).upgrader() == old(self).upgrader(),
            granted == final(self).requests()[old(self).requests().len() as int].granted,
    {
        let n: usize = self.queue.len();
        let granted: bool = match mode {
            LockMode::Exclusive => {
                if n > 0 {
                    assert(!compatible(self.queue@[0].lock_mode, mode));
                }
                n == 0
            },
            LockMode::Shared => {
                let mut all_shared: bool = true;
                let mut i: usize = 0;
                while i < n
                    invariant
                        i <= n == self.queue@.len(),
                        all_shared <==> forall|k: int|
                            0 <= k < i ==> (#[trigger] self.queue@[k]).lock_mode == LockMode::Shared,
                    decreases n - i,
                {
                    if self.queue[i].lock_mode != LockMode::Shared {
                        all_shared = false;
                    }
                    i = i + 1;
                }
                all_shared
            },
        };
        proof {
            lemma_enqueued_wf(old(self).requests(), old(self).upgrader(), txn_id, mode);
        }
        self.queue.push_back(LockRq { txn_id, lock_mode: mode, granted });
        granted
    }

    /// Grants every request that the policy allows.
    fn regrant(&mut self)
        ensures
            final(self).requests() == regranted(old(self).requests()),
            final(self).upgrader() == upgrader_after(old(self).requests(), old(self).upgrader()),
    {
        let n: usize = self.queue.len();
        let ghost q = self.queue@;
        let mut any_granted: bool = false;
        let mut granted_x: bool = false;
        let mut k: usize = 0;
        while k < n
            invariant
                k <= n == q.len(),
                self.queue@ == q,
                any_granted <==> exists|i: int| 0 <= i < k && (#[trigger] q[i]).granted,
                granted_x <==> exists|i: int|
                    0 <= i < k && (#[trigger] q[i]).granted && q[i].lock_mode == LockMode::Exclusive,
            decreases n - k,
        {
            let rq: LockRq = self.queue[k];
            if rq.granted {
                any_granted = true;
                if rq.lock_mode == LockMode::Exclusive {
                    granted_x = true;
                }
            }
            k = k + 1;
        }
        let mut out: VecDeque<LockRq> = VecDeque::new();
        let mut pending_before: bool = false;
        let mut pending_x_before: bool = false;
        let mut still_pending: bool = false;
        let mut j: usize = 0;
        while j < n
            invariant
                j <= n == q.len(),
                self.queue@ == q,
                self.upgrading == old(self).upgrading,
                any_granted <==> exists|i: int| 0 <= i < n && (#[trigger] q[i]).granted,
                granted_x <==> exists|i: int|
                    0 <= i < n && (#[trigger] q[i]).granted && q[i].lock_mode == LockMode::Exclusive,
                pending_before <==> exists|i: int| 0 <= i < j && !(#[trigger] q[i]).granted,
                pending_x_before <==> exists|i: int|
                    0 <= i < j && !(#[trigger] q[i]).granted && q[i].lock_mode == LockMode::Exclusive,
                out@.len() == j,
                forall|i: int| 0 <= i < j ==> #[trigger] out@[i] == regranted(q)[i],
                self.upgrading matches Some(t) ==> (still_pending <==> exists|i: int|
                    0 <= i < j && (#[trigger] out@[i]).txn_id == t && out@[i].lock_mode == LockMode::Exclusive
                        && !out@[i].granted),
            decreases n - j,
        {
            let rq: LockRq = self.queue[j];
            let allowed: bool = match rq.lock_mode {
                LockMode::Exclusive => !pending_before && !any_granted,
                LockMode::Shared => !pending_x_before && !granted_x,
            };
            proof {
                lemma_grantable_pending(q, j as int);
                if !rq.granted {
                    assert(allowed == grantable(q, j as int));
                }
            }
            let granted: bool = rq.granted || allowed;
            let ghost earlier = out@;
            out.push_back(LockRq { txn_id: rq.txn_id, lock_mode: rq.lock_mode, granted });
            if !rq.granted {
                pending_before = true;
                if rq.lock_mode == LockMode::Exclusive {
                    pending_x_before = true;
                }
            }
            match self.upgrading {
                Some(t) => {
                    let ghost was_pending = still_pending;
                    let hit: bool = rq.txn_id == t && rq.lock_mode == LockMode::Exclusive && !granted;
                    if hit {
                        still_pending = true;
                    }
                    proof {
                        let found = |i: int|
                            0 <= i < j + 1 && out@[i].txn_id == t && out@[i].lock_mode == LockMode::Exclusive
                                && !out@[i].granted;
                        assert(forall|i: int| 0 <= i < j ==> earlier[i] == #[trigger] out@[i]);
                        if was_pending {
                            let w = choose|i: int|
                                0 <= i < j && (#[trigger] earlier[i]).txn_id == t && earlier[i].lock_mode
                                    == LockMode::Exclusive && !earlier[i].granted;
                            assert(found(w));
                        }
                        if hit {
                            assert(found(j as int));
                        }
                        if !still_pending {
                            assert forall|i: int| 0 <= i < j + 1 implies !((#[trigger] out@[i]).txn_id == t
                                && out@[i].lock_mode == LockMode::Exclusive && !out@[i].granted) by {
                                if i < j {
                                    assert(earlier[i] == out@[i]);
                                }
                            }
                        }
                    }
                },
                None => {},
            }
            j = j + 1;
        }
        assert(out@ =~= regranted(q));
        self.queue = out;
        match self.upgrading {
            Some(t) => {
                if !still_pending {
                    self.upgrading = None;
                }
            },
            None => {},
        }
    }

    /// Takes the request of `txn_id` out of the queue, grants what it kept
    /// waiting, and says whether there was such a request.
    pub fn release(&mut self, txn_id: TxID) -> (was: bool)
        requires
            old(self).wf(),
        ensures
            final(self).wf(),
            was == has_request(old(self).requests(), txn_id),
            (final(self).requests(), final(self).upgrader()) == released(
                old(self).requests(),
                old(self).upgrader(),
                txn_id,
            ),
            !has_request(final(self).requests(), txn_id),
    {
        proof {
            lemma_released_wf(old(self).requests(), old(self).upgrader(), txn_id);
        }
        let was: bool = match self.find(txn_id) {
            Some(i) => {
                self.queue.remove(i);
                true
            },
            None => false,
        };
        match self.upgrading {
            Some(t) => {
                if t == txn_id {
                    self.upgrading = None;
                }
            },
            None => {},
        }
        self.regrant();
        was
    }

    /// Turns the request of `txn_id` into one for an exclusive lock that
    /// waits at the same place, then grants what the policy allows; the
    /// result says whether the exclusive lock was granted at once.
    pub fn upgrade(&mut self, txn_id: TxID) -> (granted: bool)
        requires
            old(self).wf(),
            old(self).upgrader().is_none(),
            has_request(old(self).requests(), txn_id),
        ensures
            final(self).wf(),
            (final(self).requests(), final(self).upgrader()) == upgraded(old(self).requests(), txn_id),
            granted == final(self).requests()[index_of(old(self).requests(), txn_id)].granted,
            granted == final(self).upgrader().is_none(),
    {
        proof {
            lemma_upgraded_wf(old(self).requests(), txn_id);
        }
        let i: usize = match self.find(txn_id) {
            Some(i) => i,
            None => 0,
        };
        self.queue.remove(i);
        self.queue.insert(i, LockRq { txn_id, lock_mode: LockMode::Exclusive, granted: false });
        assert(self.queue@ =~= old(self).queue@.update(
            i as int,
            LockRq { txn_id, lock_mode: LockMode::Exclusive, granted: false },
        ));
        self.upgrading = Some(txn_id);
        let ghost asked = self.queue@;
        self.regrant();
        proof {
            let r = self.queue@;
            assert(r[i as int].txn_id == txn_id && r[i as int].lock_mode == LockMode::Exclusive);
            if upgrade_pending(r, txn_id) {
                let k = choose|k: int|
                    0 <= k < r.len() && (#[trigger] r[k]).txn_id == txn_id && r[k].lock_mode
                        == LockMode::Exclusive && !r[k].granted;
                lemma_index_of(r, self.upgrading, k);
                lemma_index_of(r, self.upgrading, i as int);
            }
        }
        self.queue[i].granted
    }
}

/// What the policy says of a request, in terms of what stands in the queue:
/// an exclusive request needs that nothing ahead of it waits and nothing
/// else is held; a shared request needs that no exclusive request ahead of
/// it waits and no exclusive lock is held by another.
proof fn lemma_grantable_pending(q: Seq<LockRq>, j: int)
    requires
        0 <= j < q.len(),
    ensures
        q[j].lock_mode == LockMode::Exclusive ==> (grantable(q, j) <==> !(exists|i: int|
            0 <= i < j && !(#[trigger] q[i]).granted) && !(exists|i: int|
            0 <= i < q.len() && i != j && (#[trigger] q[i]).granted)),
        q[j].lock_mode == LockMode::Shared ==> (grantable(q, j) <==> !(exists|i: int|
            0 <= i < j && !(#[trigger] q[i]).granted && q[i].lock_mode == LockMode::Exclusive) && !(exists|
            i: int,
        |
            0 <= i < q.len() && i != j && (#[trigger] q[i]).granted && q[i].lock_mode
                == LockMode::Exclusive)),
{
    if q[j].lock_mode == LockMode::Exclusive {
        if grantable(q, j) {
            assert forall|i: int| 0 <= i < j implies (#[trigger] q[i]).granted by {
                if !q[i].granted {
                    assert(compatible(q[i].lock_mode, q[j].lock_mode));
                }
            }
            assert forall|i: int| 0 <= i < q.len() && i != j implies !(#[trigger] q[i]).granted by {
                if q[i].granted {
                    assert(compatible(q[i].lock_mode, q[j].lock_mode));
                }
            }
        }
    } else {
        if grantable(q, j) {
            assert forall|i: int| 0 <= i < j && !(#[trigger] q[i]).granted implies q[i].lock_mode
                != LockMode::Exclusive by {
                assert(compatible(q[i].lock_mode, q[j].lock_mode));
            }
            assert forall|i: int| 0 <= i < q.len() && i != j && (#[trigger] q[i]).granted implies q[i].lock_mode
                != LockMode::Exclusive by {
                assert(compatible(q[i].lock_mode, q[j].lock_mode));
            }
        }
    }
}

} // verus!
