//! A transaction as the lock manager sees it: its isolation level, its
//! two-phase-locking phase, the rows it has locked, and how it ended.

use vstd::prelude::*;
use crate::types::TxID;

verus! {

/// Identifier of a row: what a lock is taken on.
pub type RID = u64;

/// How much a transaction sees of the work of others.
#[derive(Clone, Copy, Debug, PartialEq, Eq, Structural)]
pub enum IsolationLevel {
    ReadUncommitted,
    ReadCommitted,
    RepeatableRead,
    Serializable,
}

/// The phase of two-phase locking: a transaction takes locks while it is
/// growing and gives them back while it is shrinking.
#[derive(Clone, Copy, Debug, PartialEq, Eq, Structural)]
pub enum TwoPLState {
    Growing,
    Shrinking,
}

/// How a transaction ended, if it has.
#[derive(Clone, Copy, Debug, PartialEq, Eq, Structural)]
pub enum TxnOutcome {
    Running,
    Committed,
    Aborted,
}

/// A set of rows, kept in the order in which they were added.
pub struct RowSet {
    rows: Vec<RID>,
}

impl View for RowSet {
    type V = Set<RID>;

    closed spec fn view(&self) -> Set<RID> {
        Set::new(|r: RID| self.rows@.contains(r))
    }
}

impl RowSet {
    /// The rows in the order in which they were added.
    pub closed spec fn order(&self) -> Seq<RID> {
        self.rows@
    }

    /// No row occurs twice.
    pub closed spec fn wf(&self) -> bool {
        self.rows@.no_duplicates()
    }

    /// `order` lists the rows of the set, each once.
    pub proof fn lemma_order(&self)
        requires
            self.wf(),
        ensures
            self.order().no_duplicates(),
            forall|r: RID| self@.contains(r) <==> self.order().contains(r),
    {
    }

    /// The empty set.
    pub fn new() -> (s: RowSet)
        ensures
            s.wf(),
            s@ == Set::<RID>::empty(),
            s.order().len() == 0,
    {
        let s = RowSet { rows: Vec::new() };
        assert(s@ =~= Set::<RID>::empty());
        s
    }

    fn position(&self, rid: RID) -> (p: Option<usize>)
        ensures
            p matches Some(i) ==> i < self.rows@.len() && self.rows@[i as int] == rid,
            p is None ==> !self.rows@.contains(rid),
    {
        let n: usize = self.rows.len();
        let mut i: usize = 0;
        while i < n
            invariant
                i <= n == self.rows@.len(),
                forall|k: int| 0 <= k < i ==> self.rows@[k] != rid,
            decreases n - i,
        {
            if self.rows[i] == rid {
                return Some(i);
            }
            i = i + 1;
        }
        None
    }

    /// Whether `rid` is in the set.
    pub fn contains(&self, rid: RID) -> (b: bool)
        ensures
            b == self@.contains(rid),
    {
        self.position(rid).is_some()
    }

    /// Adds `rid`.
    pub fn insert(&mut self, rid: RID)
        requires
            old(self).wf(),
        ensures
            final(self).wf(),
            final(self)@ == old(self)@.insert(rid),
            final(self).order() == if old(self)@.contains(rid) {
                old(self).order()
            } else {
                old(self).order().push(rid)
            },
    {
        if self.position(rid).is_none() {
            self.rows.push(rid);
            assert(self.rows@[self.rows@.len() - 1] == rid);
            assert forall|r: RID| self@.contains(r) <==> old(self)@.insert(rid).contains(r) by {
                if old(self).rows@.contains(r) {
                    let k = choose|k: int| 0 <= k < old(self).rows@.len() && old(self).rows@[k] == r;
                    assert(self.rows@[k] == r);
                }
            }
        }
        assert(self@ =~= old(self)@.insert(rid));
    }

    /// Removes `rid`, and says whether it was in the set.
    pub fn remove(&mut self, rid: RID) -> (was: bool)
        requires
            old(self).wf(),
        ensures
            final(self).wf(),
            was == old(self)@.contains(rid),
            final(self)@ == old(self)@.remove(rid),
            final(self).order().len() == old(self).order().len() - if was {
                1int
            } else {
                0int
            },
            was ==> exists|i: int|
                0 <= i < old(self).order().len() && old(self).order()[i] == rid && #[trigger] old(
                    self,
                ).order().remove(i) == final(self).order(),
            !was ==> final(self).order() == old(self).order(),
    {
        match self.position(rid) {
            Some(i) => {
                self.rows.remove(i);
                assert forall|r: RID| self@.contains(r) <==> old(self)@.remove(rid).contains(r) by {
                    if self.rows@.contains(r) {
                        let k = choose|k: int| 0 <= k < self.rows@.len() && self.rows@[k] == r;
                        if k < i {
                            assert(old(self).rows@[k] == r);
                        } else {
                            assert(old(self).rows@[k + 1] == r);
                        }
                    }
                    if old(self).rows@.contains(r) && r != rid {
                        let k = choose|k: int| 0 <= k < old(self).rows@.len() && old(self).rows@[k] == r;
                        if k < i {
                            assert(self.rows@[k] == r);
                        } else {
                            assert(self.rows@[k - 1] == r);
                        }
                    }
                }
                assert(self@ =~= old(self)@.remove(rid));
                assert(old(self).order().remove(i as int) == self.order());
                true
            },
            None => {
                assert(self@ =~= old(self)@.remove(rid));
                false
            },
        }
    }

    /// The number of rows in the set.
    pub fn len(&self) -> (n: usize)
        ensures
            n == self.order().len(),
    {
        self.rows.len()
    }

    /// The row that was added as number `i` of those that are left.
    pub fn get(&self, i: usize) -> (rid: RID)
        requires
            i < self.order().len(),
        ensures
            rid == self.order()[i as int],
    {
        self.rows[i]
    }
}

/// The state of one transaction.
pub struct Txn {
    id: TxID,
    isolation: IsolationLevel,
    state: TwoPLState,
    outcome: TxnOutcome,
    shared: RowSet,
    exclusive: RowSet,
}

impl Txn {
    /// The identifier.
    pub closed spec fn txn_id(&self) -> TxID {
        self.id
    }

    /// The isolation level.
    pub closed spec fn isolation(&self) -> IsolationLevel {
        self.isolation
    }

    /// The phase.
    pub closed spec fn phase(&self) -> TwoPLState {
        self.state
    }

    /// How the transaction ended, if it has.
    pub closed spec fn ended(&self) -> TxnOutcome {
        self.outcome
    }

    /// The rows that the transaction has recorded as locked in shared mode.
    pub closed spec fn shared_rows(&self) -> RowSet {
        self.shared
    }

    /// The rows that the transaction has recorded as locked in exclusive
    /// mode.
    pub closed spec fn exclusive_rows(&self) -> RowSet {
        self.exclusive
    }

    /// Both lock sets are well formed.
    pub open spec fn wf(&self) -> bool {
        self.shared_rows().wf() && self.exclusive_rows().wf()
    }

    /// Whether `other` is this transaction with, possibly, other lock sets,
    /// phase and outcome.
    pub open spec fn same_identity(&self, other: Txn) -> bool {
        self.txn_id() == other.txn_id() && self.isolation() == other.isolation()
    }

    /// The number of rows that the transaction has recorded as locked in
    /// either mode, a row that is recorded in both counted twice.
    pub open spec fn recorded(&self) -> nat {
        self.shared_rows().order().len() + self.exclusive_rows().order().len()
    }

    /// Whether the transaction has recorded a lock on `rid`.
    pub open spec fn has_recorded(&self, rid: RID) -> bool {
        self.shared_rows()@.contains(rid) || self.exclusive_rows()@.contains(rid)
    }

    /// Whether `other` has the lock sets of this transaction.
    pub open spec fn same_locks(&self, other: Txn) -> bool {
        self.shared_rows() == other.shared_rows() && self.exclusive_rows() == other.exclusive_rows()
    }

    /// Whether the lock sets of `after` are those of this transaction with
    /// a lock on `rid` recorded: shared, or exclusive if `exclusive` is set.
    /// An exclusive lock replaces a shared one on the same row.
    pub open spec fn with_lock(&self, after: Txn, rid: RID, exclusive: bool) -> bool {
        if exclusive {
            after.exclusive_rows()@ == self.exclusive_rows()@.insert(rid) && after.shared_rows()@
                == self.shared_rows()@.remove(rid)
        } else {
            after.shared_rows()@ == self.shared_rows()@.insert(rid) && after.exclusive_rows()
                == self.exclusive_rows()
        }
    }

    /// The first row of a non-empty lock set is recorded.
    pub proof fn lemma_recorded(&self, rid: RID)
        requires
            self.wf(),
            (self.exclusive_rows().order().len() > 0 && rid == self.exclusive_rows().order()[0]) || (
            self.exclusive_rows().order().len() == 0 && self.shared_rows().order().len() > 0 && rid
                == self.shared_rows().order()[0]),
        ensures
            self.has_recorded(rid),
    {
        self.shared_rows().lemma_order();
        self.exclusive_rows().lemma_order();
    }

    /// A transaction whose lock sets list no row has recorded no lock.
    pub proof fn lemma_none_recorded(&self)
        requires
            self.wf(),
            self.recorded() == 0,
        ensures
            forall|rid: RID| !self.has_recorded(rid),
    {
        self.shared_rows().lemma_order();
        self.exclusive_rows().lemma_order();
    }

    /// A running transaction in its growing phase that holds no lock.
    pub fn new(id: TxID, isolation: IsolationLevel) -> (t: Txn)
        ensures
            t.wf(),
            t.txn_id() == id,
            t.isolation() == isolation,
            t.phase() == TwoPLState::Growing,
            t.ended() == TxnOutcome::Running,
            t.shared_rows()@ == Set::<RID>::empty(),
            t.exclusive_rows()@ == Set::<RID>::empty(),
    {
        Txn {
            id,
            isolation,
            state: TwoPLState::Growing,
            outcome: TxnOutcome::Running,
            shared: RowSet::new(),
            exclusive: RowSet::new(),
        }
    }

    /// The identifier.
    pub fn id(&self) -> (id: TxID)
        ensures
            id == self.txn_id(),
    {
        self.id
    }

    /// The isolation level.
    pub fn isolation_level(&self) -> (l: IsolationLevel)
        ensures
            l == self.isolation(),
    {
        self.isolation
    }

    /// The phase.
    pub fn state(&self) -> (s: TwoPLState)
        ensures
            s == self.phase(),
    {
        self.state
    }

    /// How the transaction ended, if it has.
    pub fn outcome(&self) -> (o: TxnOutcome)
        ensures
            o == self.ended(),
    {
        self.outcome
    }

    /// Whether the transaction has recorded a shared lock on `rid`.
    pub fn s_locked(&self, rid: RID) -> (b: bool)
        ensures
            b == self.shared_rows()@.contains(rid),
    {
        self.shared.contains(rid)
    }

    /// Whether the transaction has recorded an exclusive lock on `rid`.
    pub fn x_locked(&self, rid: RID) -> (b: bool)
        ensures
            b == self.exclusive_rows()@.contains(rid),
    {
        self.exclusive.contains(rid)
    }

    /// The number of rows recorded as locked in shared mode.
    pub fn shared_count(&self) -> (n: usize)
        ensures
            n == self.shared_rows().order().len(),
    {
        self.shared.len()
    }

    /// The number of rows recorded as locked in exclusive mode.
    pub fn exclusive_count(&self) -> (n: usize)
        ensures
            n == self.exclusive_rows().order().len(),
    {
        self.exclusive.len()
    }

    /// The shared row that was recorded as number `i` of those that are left.
    pub fn shared_at(&self, i: usize) -> (rid: RID)
        requires
            i < self.shared_rows().order().len(),
        ensures
            rid == self.shared_rows().order()[i as int],
    {
        self.shared.get(i)
    }

    /// The exclusive row that was recorded as number `i` of those that are
    /// left.
    pub fn exclusive_at(&self, i: usize) -> (rid: RID)
        requires
            i < self.exclusive_rows().order().len(),
        ensures
            rid == self.exclusive_rows().order()[i as int],
    {
        self.exclusive.get(i)
    }

    /// Ends the transaction as aborted. Its lock sets stay as they are: the
    /// locks themselves are given back through the lock manager.
    pub fn abort(&mut self)
        ensures
            final(self).ended() == TxnOutcome::Aborted,
            final(self).same_identity(*old(self)),
            final(self).phase() == old(self).phase(),
            final(self).shared_rows() == old(self).shared_rows(),
            final(self).exclusive_rows() == old(self).exclusive_rows(),
    {
        self.outcome = TxnOutcome::Aborted;
    }

    /// Ends the transaction as committed. Its lock sets stay as they are.
    pub fn commit(&mut self)
        ensures
            final(self).ended() == TxnOutcome::Committed,
            final(self).same_identity(*old(self)),
            final(self).phase() == old(self).phase(),
            final(self).shared_rows() == old(self).shared_rows(),
            final(self).exclusive_rows() == old(self).exclusive_rows(),
    {
        self.outcome = TxnOutcome::Committed;
    }

    /// Records a lock on `rid`: shared, or exclusive if `exclusive` is set. An
    /// exclusive lock replaces a shared one on the same row.
    pub(crate) fn record_lock(&mut self, rid: RID, exclusive: bool)
        requires
            old(self).wf(),
        ensures
            final(self).wf(),
            final(self).same_identity(*old(self)),
            final(self).phase() == old(self).phase(),
            final(self).ended() == old(self).ended(),
            exclusive ==> final(self).exclusive_rows()@ == old(self).exclusive_rows()@.insert(rid)
                && final(self).shared_rows()@ == old(self).shared_rows()@.remove(rid),
            !exclusive ==> final(self).shared_rows()@ == old(self).shared_rows()@.insert(rid)
                && final(self).exclusive_rows() == old(self).exclusive_rows(),
    {
        if exclusive {
            self.exclusive.insert(rid);
            self.shared.remove(rid);
        } else {
            self.shared.insert(rid);
        }
    }

    /// Forgets the locks on `rid` and enters the shrinking phase.
    pub(crate) fn record_release(&mut self, rid: RID)
        requires
            old(self).wf(),
        ensures
            final(self).wf(),
            final(self).same_identity(*old(self)),
            final(self).phase() == TwoPLState::Shrinking,
            final(self).ended() == old(self).ended(),
            final(self).shared_rows()@ == old(self).shared_rows()@.remove(rid),
            final(self).exclusive_rows()@ == old(self).exclusive_rows()@.remove(rid),
            final(self).shared_rows().order().len() == old(self).shared_rows().order().len() - if old(
                self,
            ).shared_rows()@.contains(rid) {
                1int
            } else {
                0int
            },
            final(self).exclusive_rows().order().len() == old(self).exclusive_rows().order().len() - if old(
                self,
            ).exclusive_rows()@.contains(rid) {
                1int
            } else {
                0int
            },
    {
        self.shared.remove(rid);
        self.exclusive.remove(rid);
        self.state = TwoPLState::Shrinking;
    }
}

} // verus!
