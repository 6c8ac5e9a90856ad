//! The transaction coordinator: it starts transactions, and ends them by
//! giving their locks back.

use vstd::prelude::*;
use crate::lock_mgr::LockMgr;
use crate::lock_queue::released;
use crate::txn::{IsolationLevel, Txn, TxnOutcome, RID, TwoPLState};
use crate::types::TxID;

verus! {

/// What ending a transaction does to the lock table: on every row that the
/// transaction has recorded as locked, its request leaves the queue and
/// what it kept waiting is granted; the other rows stay as they are.
pub open spec fn locks_returned(before: LockMgr, txn0: Txn, after: LockMgr) -> bool {
    forall|rid: RID|
        (#[trigger] after.requests(rid), after.upgrader(rid)) == if txn0.has_recorded(rid) {
            released(before.requests(rid), before.upgrader(rid), txn0.txn_id())
        } else {
            (before.requests(rid), before.upgrader(rid))
        }
}

/// Hands out transaction identifiers in increasing order, so that a newer
/// transaction has a larger identifier.
pub struct TxMgr {
    next_txn_id: TxID,
}

impl TxMgr {
    /// The identifier that the next transaction gets.
    pub closed spec fn next_id(&self) -> TxID {
        self.next_txn_id
    }

    /// A coordinator that has started no transaction. The first one gets
    /// the identifier 1.
    pub fn new() -> (m: TxMgr)
        ensures
            m.next_id() == 1,
    {
        TxMgr { next_txn_id: 1 }
    }

    /// Starts a transaction: running, in its growing phase, without locks.
    /// Returns `None` when the identifiers are used up.
    pub fn begin(&mut self, isolation: IsolationLevel) -> (t: Option<Txn>)
        ensures
            t is Some <==> old(self).next_id() < TxID::MAX,
            t is None ==> final(self).next_id() == old(self).next_id(),
            t matches Some(txn) ==> {
                &&& final(self).next_id() == old(self).next_id() + 1
                &&& txn.wf()
                &&& txn.txn_id() == old(self).next_id()
                &&& txn.isolation() == isolation
                &&& txn.phase() == TwoPLState::Growing
                &&& txn.ended() == TxnOutcome::Running
                &&& txn.shared_rows()@ == Set::<RID>::empty()
                &&& txn.exclusive_rows()@ == Set::<RID>::empty()
            },
    {
        if self.next_txn_id == TxID::MAX {
            return None;
        }
        let id: TxID = self.next_txn_id;
        self.next_txn_id = id + 1;
        Some(Txn::new(id, isolation))
    }

    /// Gives back every lock that `txn` has recorded.
    fn return_locks(&self, txn: &mut Txn, lock_mgr: &mut LockMgr)
        requires
            old(txn).wf(),
            old(lock_mgr).wf(),
        ensures
            final(txn).wf(),
            final(lock_mgr).wf(),
            final(txn).same_identity(*old(txn)),
            final(txn).ended() == old(txn).ended(),
            final(txn).recorded() == 0,
            old(txn).recorded() > 0 ==> final(txn).phase() == TwoPLState::Shrinking,
            old(txn).recorded() == 0 ==> final(txn).phase() == old(txn).phase(),
            locks_returned(*old(lock_mgr), *old(txn), *final(lock_mgr)),
            final(lock_mgr).same_victims(*old(lock_mgr)),
    {
        while txn.exclusive_count() > 0 || txn.shared_count() > 0
            invariant
                txn.wf(),
                lock_mgr.wf(),
                old(txn).wf(),
                old(lock_mgr).wf(),
                txn.same_identity(*old(txn)),
                txn.ended() == old(txn).ended(),
                txn.recorded() < old(txn).recorded() ==> txn.phase() == TwoPLState::Shrinking,
                txn.recorded() == old(txn).recorded() ==> txn.phase() == old(txn).phase(),
                txn.recorded() <= old(txn).recorded(),
                lock_mgr.same_victims(*old(lock_mgr)),
                forall|rid: RID| txn.has_recorded(rid) ==> old(txn).has_recorded(rid),
                forall|rid: RID|
                    (#[trigger] lock_mgr.requests(rid), lock_mgr.upgrader(rid)) == if old(txn).has_recorded(rid)
                        && !txn.has_recorded(rid) {
                        released(old(lock_mgr).requests(rid), old(lock_mgr).upgrader(rid), old(txn).txn_id())
                    } else {
                        (old(lock_mgr).requests(rid), old(lock_mgr).upgrader(rid))
                    },
            decreases txn.recorded(),
        {
            let rid: RID = if txn.exclusive_count() > 0 {
                txn.exclusive_at(0)
            } else {
                txn.shared_at(0)
            };
            let ghost txn0 = *txn;
            let ghost mgr0 = *lock_mgr;
            proof {
                txn.lemma_recorded(rid);
            }
            lock_mgr.unlock(txn, rid);
            proof {
                assert forall|k: RID| txn.has_recorded(k) implies old(txn).has_recorded(k) by {
                    assert(txn0.has_recorded(k));
                }
                assert forall|k: RID|
                    (#[trigger] lock_mgr.requests(k), lock_mgr.upgrader(k)) == if old(txn).has_recorded(k)
                        && !txn.has_recorded(k) {
                        released(old(lock_mgr).requests(k), old(lock_mgr).upgrader(k), old(txn).txn_id())
                    } else {
                        (old(lock_mgr).requests(k), old(lock_mgr).upgrader(k))
                    } by {
                    assert((mgr0.requests(k), mgr0.upgrader(k)) == if old(txn).has_recorded(k)
                        && !txn0.has_recorded(k) {
                        released(old(lock_mgr).requests(k), old(lock_mgr).upgrader(k), old(txn).txn_id())
                    } else {
                        (old(lock_mgr).requests(k), old(lock_mgr).upgrader(k))
                    });
                    if k != rid {
                        assert(lock_mgr.requests(k) == mgr0.requests(k));
                        assert(txn.has_recorded(k) == txn0.has_recorded(k));
                    }
                }
            }
        }
        proof {
            txn.lemma_none_recorded();
        }
    }

    /// Commits `txn`: gives its locks back and ends it as committed.
    pub fn commit(&self, txn: &mut Txn, lock_mgr: &mut LockMgr)
        requires
            old(txn).wf(),
            old(lock_mgr).wf(),
        ensures
            final(txn).wf(),
            final(lock_mgr).wf(),
            final(txn).same_identity(*old(txn)),
            final(txn).ended() == TxnOutcome::Committed,
            final(txn).recorded() == 0,
            final(txn).phase() == if old(txn).recorded() > 0 {
                TwoPLState::Shrinking
            } else {
                old(txn).phase()
            },
            locks_returned(*old(lock_mgr), *old(txn), *final(lock_mgr)),
            final(lock_mgr).same_victims(*old(lock_mgr)),
    {
        self.return_locks(txn, lock_mgr);
        txn.commit();
    }

    /// Aborts `txn`: gives its locks back and ends it as aborted. If
    /// deadlock detection had chosen it as a victim, it is a victim no
    /// longer.
    pub fn abort(&self, txn: &mut Txn, lock_mgr: &mut LockMgr)
        requires
            old(txn).wf(),
            old(lock_mgr).wf(),
        ensures
            final(txn).wf(),
            final(lock_mgr).wf(),
            final(txn).same_identity(*old(txn)),
            final(txn).ended() == TxnOutcome::Aborted,
            final(txn).recorded() == 0,
            final(txn).phase() == if old(txn).recorded() > 0 {
                TwoPLState::Shrinking
            } else {
                old(txn).phase()
            },
            locks_returned(*old(lock_mgr), *old(txn), *final(lock_mgr)),
            final(lock_mgr).victims_without(*old(lock_mgr), old(txn).txn_id()),
    {
        self.return_locks(txn, lock_mgr);
        let ghost returned = *lock_mgr;
        lock_mgr.clear_victim(txn.id());
        proof {
            assert forall|rid: RID|
                (#[trigger] lock_mgr.requests(rid), lock_mgr.upgrader(rid)) == if old(txn).has_recorded(rid) {
                    released(old(lock_mgr).requests(rid), old(lock_mgr).upgrader(rid), old(txn).txn_id())
                } else {
                    (old(lock_mgr).requests(rid), old(lock_mgr).upgrader(rid))
                } by {
                assert(lock_mgr.requests(rid) == returned.requests(rid));
                assert((returned.requests(rid), returned.upgrader(rid)) == if old(txn).has_recorded(rid) {
                    released(old(lock_mgr).requests(rid), old(lock_mgr).upgrader(rid), old(txn).txn_id())
                } else {
                    (old(lock_mgr).requests(rid), old(lock_mgr).upgrader(rid))
                });
            }
        }
        txn.abort();
    }
}

} // verus!
