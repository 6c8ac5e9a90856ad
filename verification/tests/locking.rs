use mvcc::lock_mgr::{LockError, LockMgr, LockReply};
use mvcc::lock_queue::{LockMode, LockRequestQueue, LockRq};
use mvcc::tx_mgr::TxMgr;
use mvcc::txn::{IsolationLevel, RowSet, TwoPLState, Txn, TxnOutcome};
use mvcc::wait_graph::{cycle_of, largest, WaitGraph};

fn txn(id: u32) -> Txn {
    Txn::new(id, IsolationLevel::RepeatableRead)
}

fn requests(m: &LockMgr, rid: u64) -> Vec<LockRq> {
    match m.get_queue(rid) {
        Some(q) => (0..q.len()).map(|i| q.get(i)).collect(),
        None => Vec::new(),
    }
}

fn rq(txn_id: u32, lock_mode: LockMode, granted: bool) -> LockRq {
    LockRq { txn_id, lock_mode, granted }
}

#[test]
fn new_transaction_is_running_and_growing() {
    let t = Txn::new(4, IsolationLevel::Serializable);
    assert_eq!(t.id(), 4);
    assert_eq!(t.isolation_level(), IsolationLevel::Serializable);
    assert_eq!(t.state(), TwoPLState::Growing);
    assert_eq!(t.outcome(), TxnOutcome::Running);
    assert!(!t.s_locked(1));
    assert!(!t.x_locked(1));
    assert_eq!(t.shared_count(), 0);
    assert_eq!(t.exclusive_count(), 0);
}

#[test]
fn row_set_holds_each_row_once() {
    let mut s = RowSet::new();
    assert!(!s.contains(5));
    s.insert(5);
    s.insert(6);
    s.insert(5);
    assert_eq!(s.len(), 2);
    assert_eq!(s.get(0), 5);
    assert_eq!(s.get(1), 6);
    assert!(s.contains(5) && s.contains(6));
    assert!(s.remove(5));
    assert!(!s.remove(5));
    assert!(!s.contains(5));
    assert_eq!(s.len(), 1);
    assert_eq!(s.get(0), 6);
}

#[test]
fn shared_locks_are_held_together() {
    let mut m = LockMgr::new();
    let (mut t1, mut t2, mut t3) = (txn(1), txn(2), txn(3));
    assert_eq!(m.lock_s(&mut t1, 10), LockReply::Granted);
    assert_eq!(m.lock_s(&mut t2, 10), LockReply::Granted);
    assert_eq!(m.lock_s(&mut t3, 10), LockReply::Granted);
    assert!(t1.s_locked(10) && t2.s_locked(10) && t3.s_locked(10));
    assert!(!t1.x_locked(10));
    assert_eq!(
        requests(&m, 10),
        vec![
            rq(1, LockMode::Shared, true),
            rq(2, LockMode::Shared, true),
            rq(3, LockMode::Shared, true)
        ]
    );
}

#[test]
fn exclusive_lock_is_held_alone() {
    let mut m = LockMgr::new();
    let (mut t1, mut t2, mut t3) = (txn(1), txn(2), txn(3));
    assert_eq!(m.lock_x(&mut t1, 10), LockReply::Granted);
    assert_eq!(m.lock_x(&mut t2, 10), LockReply::Waiting);
    assert_eq!(m.lock_s(&mut t3, 10), LockReply::Waiting);
    assert!(t1.x_locked(10));
    assert!(!t2.x_locked(10) && !t3.s_locked(10));
    let granted: Vec<u32> = requests(&m, 10)
        .iter()
        .filter(|r| r.granted)
        .map(|r| r.txn_id)
        .collect();
    assert_eq!(granted, vec![1]);
    assert_eq!(m.lock_x(&mut t2, 10), LockReply::Waiting);
    assert_eq!(requests(&m, 10).len(), 3);
}

#[test]
fn locks_on_different_rows_do_not_meet() {
    let mut m = LockMgr::new();
    let (mut t1, mut t2) = (txn(1), txn(2));
    assert_eq!(m.lock_x(&mut t1, 10), LockReply::Granted);
    assert_eq!(m.lock_x(&mut t2, 11), LockReply::Granted);
    assert_eq!(requests(&m, 10), vec![rq(1, LockMode::Exclusive, true)]);
    assert_eq!(requests(&m, 11), vec![rq(2, LockMode::Exclusive, true)]);
    assert!(m.get_queue(12).is_none());
}

#[test]
fn a_held_lock_answers_a_second_request() {
    let mut m = LockMgr::new();
    let mut t1 = txn(1);
    assert_eq!(m.lock_s(&mut t1, 10), LockReply::Granted);
    assert_eq!(m.lock_s(&mut t1, 10), LockReply::Granted);
    assert_eq!(m.lock_x(&mut t1, 10), LockReply::Failed(LockError::LockConflict));
    assert_eq!(m.lock_x(&mut t1, 11), LockReply::Granted);
    assert_eq!(m.lock_x(&mut t1, 11), LockReply::Granted);
    assert_eq!(m.lock_s(&mut t1, 11), LockReply::Granted);
    assert_eq!(requests(&m, 10), vec![rq(1, LockMode::Shared, true)]);
    assert_eq!(requests(&m, 11), vec![rq(1, LockMode::Exclusive, true)]);
    assert_eq!(t1.outcome(), TxnOutcome::Running);
}

#[test]
fn waiters_are_granted_first_come_first_served() {
    let mut m = LockMgr::new();
    let (mut t1, mut t2, mut t3, mut t4, mut t5) = (txn(1), txn(2), txn(3), txn(4), txn(5));
    assert_eq!(m.lock_x(&mut t1, 10), LockReply::Granted);
    assert_eq!(m.lock_s(&mut t2, 10), LockReply::Waiting);
    assert_eq!(m.lock_s(&mut t3, 10), LockReply::Waiting);
    assert_eq!(m.lock_x(&mut t4, 10), LockReply::Waiting);
    assert!(m.unlock(&mut t1, 10));
    assert_eq!(
        requests(&m, 10),
        vec![
            rq(2, LockMode::Shared, true),
            rq(3, LockMode::Shared, true),
            rq(4, LockMode::Exclusive, false)
        ]
    );
    assert_eq!(m.lock_s(&mut t5, 10), LockReply::Waiting);
    assert_eq!(m.lock_s(&mut t2, 10), LockReply::Granted);
    assert_eq!(m.lock_s(&mut t3, 10), LockReply::Granted);
    assert_eq!(m.lock_x(&mut t4, 10), LockReply::Waiting);
    assert!(m.unlock(&mut t2, 10));
    assert_eq!(m.lock_x(&mut t4, 10), LockReply::Waiting);
    assert!(m.unlock(&mut t3, 10));
    assert_eq!(
        requests(&m, 10),
        vec![rq(4, LockMode::Exclusive, true), rq(5, LockMode::Shared, false)]
    );
    assert_eq!(m.lock_x(&mut t4, 10), LockReply::Granted);
    assert_eq!(m.lock_s(&mut t5, 10), LockReply::Waiting);
    assert!(m.unlock(&mut t4, 10));
    assert_eq!(m.lock_s(&mut t5, 10), LockReply::Granted);
    assert_eq!(requests(&m, 10), vec![rq(5, LockMode::Shared, true)]);
}

#[test]
fn nothing_is_acquired_after_a_release() {
    let mut m = LockMgr::new();
    let mut t1 = txn(1);
    assert_eq!(m.lock_s(&mut t1, 10), LockReply::Granted);
    assert_eq!(t1.state(), TwoPLState::Growing);
    assert!(m.unlock(&mut t1, 10));
    assert_eq!(t1.state(), TwoPLState::Shrinking);
    assert!(!t1.s_locked(10));
    assert_eq!(m.lock_s(&mut t1, 11), LockReply::Failed(LockError::PhaseViolation));
    assert_eq!(t1.outcome(), TxnOutcome::Aborted);
    assert!(!t1.s_locked(11));
    assert!(requests(&m, 11).is_empty());

    let mut t2 = Txn::new(2, IsolationLevel::ReadCommitted);
    assert_eq!(m.lock_x(&mut t2, 20), LockReply::Granted);
    assert!(m.unlock(&mut t2, 20));
    assert_eq!(m.lock_x(&mut t2, 21), LockReply::Failed(LockError::PhaseViolation));
    assert_eq!(t2.outcome(), TxnOutcome::Aborted);
    assert!(requests(&m, 21).is_empty());

    let mut t3 = txn(3);
    assert_eq!(m.lock_s(&mut t3, 30), LockReply::Granted);
    assert_eq!(m.lock_s(&mut t3, 31), LockReply::Granted);
    assert!(m.unlock(&mut t3, 30));
    assert_eq!(m.upgrade_lock(&mut t3, 31), LockReply::Failed(LockError::PhaseViolation));
    assert_eq!(requests(&m, 31), vec![rq(3, LockMode::Shared, true)]);
}

#[test]
fn a_transaction_that_has_ended_is_refused() {
    let mut m = LockMgr::new();
    let mut t1 = txn(1);
    t1.commit();
    assert_eq!(m.lock_s(&mut t1, 10), LockReply::Failed(LockError::TransactionEnded));
    assert_eq!(t1.outcome(), TxnOutcome::Committed);
    let mut t2 = txn(2);
    t2.abort();
    assert_eq!(m.lock_x(&mut t2, 10), LockReply::Failed(LockError::TransactionEnded));
    assert!(requests(&m, 10).is_empty());
}

#[test]
fn dirty_readers_take_no_shared_locks() {
    let mut m = LockMgr::new();
    let mut reader = Txn::new(1, IsolationLevel::ReadUncommitted);
    assert_eq!(m.lock_s(&mut reader, 10), LockReply::Failed(LockError::IsolationViolation));
    assert_eq!(reader.outcome(), TxnOutcome::Aborted);
    assert!(requests(&m, 10).is_empty());
    let mut writer = Txn::new(2, IsolationLevel::ReadUncommitted);
    assert_eq!(m.lock_x(&mut writer, 10), LockReply::Granted);
    assert!(writer.x_locked(10));
    assert_eq!(writer.outcome(), TxnOutcome::Running);
}

#[test]
fn sole_reader_upgrades_at_once() {
    let mut m = LockMgr::new();
    let mut t1 = txn(1);
    assert_eq!(m.lock_s(&mut t1, 10), LockReply::Granted);
    assert_eq!(m.upgrade_lock(&mut t1, 10), LockReply::Granted);
    assert!(t1.x_locked(10));
    assert!(!t1.s_locked(10));
    assert_eq!(requests(&m, 10), vec![rq(1, LockMode::Exclusive, true)]);
    assert!(m.get_queue(10).unwrap().get_upgrading().is_none());
    assert_eq!(m.upgrade_lock(&mut t1, 10), LockReply::Granted);
}

#[test]
fn upgrade_waits_for_the_other_readers() {
    let mut m = LockMgr::new();
    let (mut t1, mut t2, mut t3) = (txn(1), txn(2), txn(3));
    assert_eq!(m.lock_s(&mut t1, 10), LockReply::Granted);
    assert_eq!(m.lock_s(&mut t2, 10), LockReply::Granted);
    assert_eq!(m.upgrade_lock(&mut t1, 10), LockReply::Waiting);
    assert_eq!(m.get_queue(10).unwrap().get_upgrading(), Some(1));
    assert_eq!(
        requests(&m, 10),
        vec![rq(1, LockMode::Exclusive, false), rq(2, LockMode::Shared, true)]
    );
    assert_eq!(m.upgrade_lock(&mut t2, 10), LockReply::Failed(LockError::LockConflict));
    assert_eq!(t2.outcome(), TxnOutcome::Running);
    assert_eq!(m.lock_s(&mut t3, 10), LockReply::Waiting);
    assert_eq!(m.upgrade_lock(&mut t1, 10), LockReply::Waiting);
    assert!(m.unlock(&mut t2, 10));
    assert_eq!(
        requests(&m, 10),
        vec![rq(1, LockMode::Exclusive, true), rq(3, LockMode::Shared, false)]
    );
    assert!(m.get_queue(10).unwrap().get_upgrading().is_none());
    assert_eq!(m.upgrade_lock(&mut t1, 10), LockReply::Granted);
    assert!(t1.x_locked(10) && !t1.s_locked(10));
    assert!(m.unlock(&mut t1, 10));
    assert_eq!(m.lock_s(&mut t3, 10), LockReply::Granted);
}

#[test]
fn upgrade_without_a_shared_lock_is_a_conflict() {
    let mut m = LockMgr::new();
    let (mut t1, mut t2) = (txn(1), txn(2));
    assert_eq!(m.upgrade_lock(&mut t1, 10), LockReply::Failed(LockError::LockConflict));
    assert_eq!(m.lock_x(&mut t1, 10), LockReply::Granted);
    assert_eq!(m.lock_s(&mut t2, 10), LockReply::Waiting);
    assert_eq!(m.upgrade_lock(&mut t2, 10), LockReply::Failed(LockError::LockConflict));
    assert_eq!(
        requests(&m, 10),
        vec![rq(1, LockMode::Exclusive, true), rq(2, LockMode::Shared, false)]
    );
    assert_eq!(t1.outcome(), TxnOutcome::Running);
    assert_eq!(t2.outcome(), TxnOutcome::Running);
}

#[test]
fn unlock_withdraws_a_request_that_waits() {
    let mut m = LockMgr::new();
    let (mut t1, mut t2, mut t3) = (txn(1), txn(2), txn(3));
    assert_eq!(m.lock_s(&mut t1, 10), LockReply::Granted);
    assert_eq!(m.lock_x(&mut t2, 10), LockReply::Waiting);
    assert_eq!(m.lock_s(&mut t3, 10), LockReply::Waiting);
    assert!(m.unlock(&mut t2, 10));
    assert_eq!(
        requests(&m, 10),
        vec![rq(1, LockMode::Shared, true), rq(3, LockMode::Shared, true)]
    );
    assert!(!m.unlock(&mut t2, 10));
    assert!(!m.unlock(&mut t2, 99));
    assert!(m.get_queue(99).is_none());
}

#[test]
fn two_transactions_that_wait_for_each_other_are_a_deadlock() {
    let mut m = LockMgr::new();
    let mut coordinator = TxMgr::new();
    let mut t1 = coordinator.begin(IsolationLevel::RepeatableRead).unwrap();
    let mut t2 = coordinator.begin(IsolationLevel::RepeatableRead).unwrap();
    assert_eq!((t1.id(), t2.id()), (1, 2));
    let (r1, r2) = (100u64, 200u64);
    assert_eq!(m.lock_x(&mut t1, r1), LockReply::Granted);
    assert_eq!(m.lock_x(&mut t2, r2), LockReply::Granted);
    assert_eq!(m.run_cycle_detection(), None);
    assert_eq!(m.lock_x(&mut t1, r2), LockReply::Waiting);
    assert_eq!(m.run_cycle_detection(), None);
    assert_eq!(m.lock_x(&mut t2, r1), LockReply::Waiting);
    let mut edges = m.get_edge_list();
    edges.sort();
    assert_eq!(edges, vec![(1, 2), (2, 1)]);

    assert_eq!(m.run_cycle_detection(), Some(2));
    assert_eq!(requests(&m, r1), vec![rq(1, LockMode::Exclusive, true)]);
    assert_eq!(requests(&m, r2), vec![rq(1, LockMode::Exclusive, true)]);
    assert!(m.get_edge_list().is_empty());
    assert_eq!(m.run_cycle_detection(), None);

    assert_eq!(m.lock_x(&mut t2, r1), LockReply::Failed(LockError::DeadlockVictim));
    assert_eq!(t2.outcome(), TxnOutcome::Aborted);
    coordinator.abort(&mut t2, &mut m);
    assert_eq!(t2.exclusive_count(), 0);

    assert_eq!(m.lock_x(&mut t1, r2), LockReply::Granted);
    assert!(t1.x_locked(r1) && t1.x_locked(r2));
    assert_eq!(t1.outcome(), TxnOutcome::Running);
    coordinator.commit(&mut t1, &mut m);
    assert_eq!(t1.outcome(), TxnOutcome::Committed);
    assert!(requests(&m, r1).is_empty());
    assert!(requests(&m, r2).is_empty());
}

#[test]
fn the_newest_transaction_of_a_longer_cycle_is_the_victim() {
    let mut m = LockMgr::new();
    let (mut t1, mut t2, mut t3, mut t4) = (txn(1), txn(2), txn(3), txn(4));
    assert_eq!(m.lock_x(&mut t1, 1), LockReply::Granted);
    assert_eq!(m.lock_x(&mut t3, 2), LockReply::Granted);
    assert_eq!(m.lock_x(&mut t2, 3), LockReply::Granted);
    assert_eq!(m.lock_s(&mut t4, 9), LockReply::Granted);
    assert_eq!(m.lock_x(&mut t1, 2), LockReply::Waiting);
    assert_eq!(m.lock_x(&mut t3, 3), LockReply::Waiting);
    assert_eq!(m.lock_s(&mut t4, 1), LockReply::Waiting);
    assert_eq!(m.run_cycle_detection(), None);
    assert_eq!(m.lock_x(&mut t2, 1), LockReply::Waiting);
    assert_eq!(m.run_cycle_detection(), Some(3));
    assert_eq!(requests(&m, 2), vec![rq(1, LockMode::Exclusive, true)]);
    assert_eq!(requests(&m, 3), vec![rq(2, LockMode::Exclusive, true)]);
    assert_eq!(
        requests(&m, 1),
        vec![
            rq(1, LockMode::Exclusive, true),
            rq(4, LockMode::Shared, false),
            rq(2, LockMode::Exclusive, false)
        ]
    );
    assert_eq!(m.run_cycle_detection(), None);
    assert_eq!(m.lock_x(&mut t3, 3), LockReply::Failed(LockError::DeadlockVictim));
    assert_eq!(m.lock_x(&mut t1, 2), LockReply::Granted);
    assert_eq!(t4.outcome(), TxnOutcome::Running);
}

#[test]
fn a_victim_learns_of_its_abort_once() {
    let mut m = LockMgr::new();
    let (mut t1, mut t2) = (txn(1), txn(2));
    assert_eq!(m.lock_s(&mut t1, 1), LockReply::Granted);
    assert_eq!(m.lock_s(&mut t2, 1), LockReply::Granted);
    assert_eq!(m.upgrade_lock(&mut t2, 1), LockReply::Waiting);
    assert_eq!(m.lock_x(&mut t2, 2), LockReply::Granted);
    assert_eq!(m.lock_x(&mut t1, 2), LockReply::Waiting);
    assert_eq!(m.run_cycle_detection(), Some(2));
    assert_eq!(requests(&m, 1), vec![rq(1, LockMode::Shared, true)]);
    assert!(m.get_queue(1).unwrap().get_upgrading().is_none());
    assert_eq!(requests(&m, 2), vec![rq(1, LockMode::Exclusive, true)]);
    assert_eq!(m.upgrade_lock(&mut t2, 1), LockReply::Failed(LockError::DeadlockVictim));
    assert_eq!(t2.outcome(), TxnOutcome::Aborted);
    let mut reused = txn(2);
    assert_eq!(m.lock_s(&mut reused, 5), LockReply::Granted);
}

#[test]
fn commit_gives_every_lock_back() {
    let mut m = LockMgr::new();
    let coordinator = TxMgr::new();
    let (mut t1, mut t2) = (txn(1), txn(2));
    assert_eq!(m.lock_s(&mut t1, 1), LockReply::Granted);
    assert_eq!(m.lock_x(&mut t1, 2), LockReply::Granted);
    assert_eq!(m.lock_s(&mut t1, 3), LockReply::Granted);
    assert_eq!(m.upgrade_lock(&mut t1, 3), LockReply::Granted);
    assert_eq!(m.lock_x(&mut t2, 1), LockReply::Waiting);
    assert_eq!((t1.shared_count(), t1.exclusive_count()), (1, 2));
    assert_eq!(t1.shared_at(0), 1);
    assert_eq!(t1.exclusive_at(0), 2);
    assert_eq!(t1.exclusive_at(1), 3);
    coordinator.commit(&mut t1, &mut m);
    assert_eq!(t1.outcome(), TxnOutcome::Committed);
    assert_eq!(t1.state(), TwoPLState::Shrinking);
    assert_eq!((t1.shared_count(), t1.exclusive_count()), (0, 0));
    assert_eq!(requests(&m, 1), vec![rq(2, LockMode::Exclusive, true)]);
    assert!(requests(&m, 2).is_empty());
    assert!(requests(&m, 3).is_empty());
    assert_eq!(m.lock_x(&mut t2, 1), LockReply::Granted);
}

#[test]
fn coordinator_hands_out_increasing_identifiers() {
    let mut coordinator = TxMgr::new();
    let a = coordinator.begin(IsolationLevel::ReadCommitted).unwrap();
    let b = coordinator.begin(IsolationLevel::Serializable).unwrap();
    let c = coordinator.begin(IsolationLevel::ReadUncommitted).unwrap();
    assert_eq!((a.id(), b.id(), c.id()), (1, 2, 3));
    assert_eq!(b.isolation_level(), IsolationLevel::Serializable);
    assert_eq!(c.state(), TwoPLState::Growing);
    assert_eq!(c.outcome(), TxnOutcome::Running);
}

#[test]
fn queue_grants_what_the_policy_allows() {
    let mut q = LockRequestQueue::new();
    assert_eq!(q.len(), 0);
    assert!(q.enqueue(1, LockMode::Shared));
    assert!(q.enqueue(2, LockMode::Shared));
    assert!(!q.enqueue(3, LockMode::Exclusive));
    assert!(!q.enqueue(4, LockMode::Shared));
    assert_eq!(q.find(3), Some(2));
    assert_eq!(q.find(9), None);
    assert_eq!(q.get(3), rq(4, LockMode::Shared, false));
    assert!(!q.release(9));
    assert!(q.release(1));
    assert_eq!(q.get(0), rq(2, LockMode::Shared, true));
    assert_eq!(q.get(1), rq(3, LockMode::Exclusive, false));
    assert!(q.release(3));
    assert_eq!(q.len(), 2);
    assert_eq!(q.get(0), rq(2, LockMode::Shared, true));
    assert_eq!(q.get(1), rq(4, LockMode::Shared, true));
    assert!(!q.upgrade(4));
    assert_eq!(q.get_upgrading(), Some(4));
    assert_eq!(q.get(1), rq(4, LockMode::Exclusive, false));
    assert!(q.release(2));
    assert_eq!(q.len(), 1);
    assert_eq!(q.get(0), rq(4, LockMode::Exclusive, true));
    assert_eq!(q.get_upgrading(), None);
}

#[test]
fn graph_without_a_cycle_has_no_victim() {
    let mut g = WaitGraph::new();
    assert_eq!(g.has_cycle(), None);
    g.add_edge(1, 2);
    g.add_edge(2, 3);
    g.add_edge(1, 3);
    g.add_edge(4, 3);
    g.add_edge(1, 2);
    assert_eq!(g.find_cycle(), None);
    assert_eq!(g.has_cycle(), None);
    let mut edges = g.get_edge_list();
    edges.sort();
    assert_eq!(edges, vec![(1, 2), (1, 3), (2, 3), (4, 3)]);
}

#[test]
fn graph_search_starts_from_the_smallest_identifier() {
    let mut g = WaitGraph::new();
    g.add_edge(6, 5);
    g.add_edge(5, 6);
    g.add_edge(2, 1);
    g.add_edge(1, 2);
    g.add_edge(9, 1);
    assert_eq!(g.find_cycle(), Some(vec![1, 2]));
    assert_eq!(g.has_cycle(), Some(2));
}

#[test]
fn graph_search_follows_the_smallest_edge_first() {
    let mut g = WaitGraph::new();
    g.add_edge(1, 7);
    g.add_edge(7, 1);
    g.add_edge(1, 3);
    g.add_edge(3, 4);
    g.add_edge(4, 1);
    assert_eq!(g.find_cycle(), Some(vec![1, 3, 4]));
    assert_eq!(g.has_cycle(), Some(4));
}

#[test]
fn graph_finds_a_cycle_away_from_the_start() {
    let mut g = WaitGraph::new();
    g.add_edge(1, 2);
    g.add_edge(2, 3);
    g.add_edge(3, 4);
    g.add_edge(4, 2);
    assert_eq!(g.find_cycle(), Some(vec![2, 3, 4]));
    assert_eq!(g.has_cycle(), Some(4));
    let mut looped = WaitGraph::new();
    looped.add_edge(8, 8);
    assert_eq!(looped.find_cycle(), Some(vec![8]));
    assert_eq!(looped.has_cycle(), Some(8));
}

#[test]
fn largest_identifier_of_a_list() {
    assert_eq!(largest(&vec![3]), 3);
    assert_eq!(largest(&vec![3, 9, 4]), 9);
    assert_eq!(largest(&vec![9, 3, 9]), 9);
}

#[test]
fn the_first_reason_to_refuse_is_reported() {
    let mut m = LockMgr::new();
    let mut ended = Txn::new(1, IsolationLevel::ReadUncommitted);
    ended.abort();
    assert_eq!(
        m.lock_s(&mut ended, 10),
        LockReply::Failed(LockError::TransactionEnded)
    );
    let mut dirty = Txn::new(2, IsolationLevel::ReadUncommitted);
    assert_eq!(m.lock_x(&mut dirty, 10), LockReply::Granted);
    assert!(m.unlock(&mut dirty, 10));
    assert_eq!(
        m.lock_s(&mut dirty, 10),
        LockReply::Failed(LockError::IsolationViolation)
    );
    assert_eq!(dirty.outcome(), TxnOutcome::Aborted);
    assert_eq!(
        m.lock_x(&mut dirty, 10),
        LockReply::Failed(LockError::TransactionEnded)
    );
    let mut late = txn(3);
    assert_eq!(m.lock_x(&mut late, 11), LockReply::Granted);
    assert!(m.unlock(&mut late, 11));
    assert_eq!(
        m.lock_x(&mut late, 11),
        LockReply::Failed(LockError::PhaseViolation)
    );
}

#[test]
fn graph_search_returns_the_first_closing_walk() {
    let mut g = WaitGraph::new();
    assert_eq!(g.find_lasso(), None);
    g.add_edge(4, 2);
    g.add_edge(3, 4);
    g.add_edge(2, 3);
    g.add_edge(1, 2);
    g.add_edge(1, 5);
    g.add_edge(5, 1);
    assert_eq!(g.find_lasso(), Some(vec![1, 2, 3, 4, 2]));
    assert_eq!(g.find_cycle(), Some(vec![2, 3, 4]));
    assert_eq!(g.has_cycle(), Some(4));
    let mut h = WaitGraph::new();
    h.add_edge(3, 1);
    h.add_edge(1, 3);
    h.add_edge(1, 2);
    h.add_edge(2, 9);
    assert_eq!(h.find_lasso(), Some(vec![1, 3, 1]));
    assert_eq!(h.has_cycle(), Some(3));
}

#[test]
fn the_order_in_which_edges_are_added_does_not_matter() {
    let edges: Vec<(u32, u32)> = vec![(1, 4), (4, 1), (1, 2), (2, 3), (3, 1), (0, 9)];
    let mut forward = WaitGraph::new();
    for (a, b) in edges.iter() {
        forward.add_edge(*a, *b);
    }
    let mut backward = WaitGraph::new();
    for (a, b) in edges.iter().rev() {
        backward.add_edge(*a, *b);
    }
    assert_eq!(forward.find_lasso(), Some(vec![1, 2, 3, 1]));
    assert_eq!(backward.find_lasso(), Some(vec![1, 2, 3, 1]));
    assert_eq!(forward.has_cycle(), backward.has_cycle());
}

#[test]
fn cycle_of_a_closing_walk() {
    assert_eq!(cycle_of(&vec![7, 7]), vec![7]);
    assert_eq!(cycle_of(&vec![1, 2, 3, 1]), vec![1, 2, 3]);
    assert_eq!(cycle_of(&vec![1, 2, 3, 4, 2]), vec![2, 3, 4]);
    assert_eq!(cycle_of(&vec![1, 2, 3, 3]), vec![3]);
}

#[test]
fn a_victim_is_marked_until_it_is_told_or_aborted() {
    let mut m = LockMgr::new();
    let coordinator = TxMgr::new();
    let (mut t1, mut t2) = (txn(1), txn(2));
    assert_eq!(m.lock_x(&mut t1, 1), LockReply::Granted);
    assert_eq!(m.lock_x(&mut t2, 2), LockReply::Granted);
    assert_eq!(m.lock_x(&mut t1, 2), LockReply::Waiting);
    assert_eq!(m.lock_x(&mut t2, 1), LockReply::Waiting);
    assert!(!m.victim(2));
    assert_eq!(m.run_cycle_detection(), Some(2));
    assert!(m.victim(2));
    assert!(!m.victim(1));
    coordinator.abort(&mut t2, &mut m);
    assert!(!m.victim(2));
    assert_eq!(t2.outcome(), TxnOutcome::Aborted);
    assert_eq!(
        m.lock_x(&mut t2, 1),
        LockReply::Failed(LockError::TransactionEnded)
    );

    assert_eq!(m.lock_x(&mut t1, 2), LockReply::Granted);
    let (mut t3, mut t4) = (txn(3), txn(4));
    assert_eq!(m.lock_x(&mut t3, 3), LockReply::Granted);
    assert_eq!(m.lock_x(&mut t4, 4), LockReply::Granted);
    assert_eq!(m.lock_x(&mut t3, 4), LockReply::Waiting);
    assert_eq!(m.lock_x(&mut t4, 3), LockReply::Waiting);
    assert_eq!(m.run_cycle_detection(), Some(4));
    assert!(m.victim(4));
    assert_eq!(
        m.lock_x(&mut t4, 3),
        LockReply::Failed(LockError::DeadlockVictim)
    );
    assert!(!m.victim(4));
    m.clear_victim(4);
    assert!(!m.victim(4));
}
