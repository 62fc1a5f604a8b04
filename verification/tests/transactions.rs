use bustubx::transaction::lock_manager::LockManager;
use bustubx::transaction::recovery::scan_journal;
use bustubx::transaction::transaction::{CommitStep, TransactionCore};
use bustubx::transaction::transaction_manager::{IsolationLevel, ManagerCore};
use bustubx::transaction::recovery::JournalState;
use bustubx::BustubxError;

fn setup() -> ManagerCore {
    // One committed version holding the initial table.
    let mut manager = ManagerCore::new(0);
    let mut tx = manager.begin_with_isolation(IsolationLevel::Serializable).unwrap();
    tx.before_statement(&mut manager, true).unwrap();
    assert!(matches!(tx.commit(&mut manager, &[]).unwrap(), CommitStep::Published));
    manager
}

fn snapshot(manager: &mut ManagerCore) -> TransactionCore {
    manager
        .begin_with_isolation(IsolationLevel::SnapshotIsolation)
        .unwrap()
}

#[test]
fn lock_manager_shares_readers_and_excludes_writers() {
    let mut locks = LockManager::new();
    assert!(locks.shared(1));
    assert!(locks.shared(2));
    assert!(!locks.exclusive(1));
    locks.release(2);
    assert!(locks.exclusive(1));
    assert!(locks.exclusive(1));
    assert!(!locks.shared(3));
    assert!(locks.shared(1));
    assert!(!locks.exclusive(3));
    locks.release(1);
    assert!(locks.exclusive(3));
    locks.release(3);
    assert!(locks.shared(4));
}

#[test]
fn sql_commit_abort_drop_and_errors_are_atomic() {
    let mut manager = setup();
    assert_eq!(manager.version(), 1);
    // A written transaction that aborts publishes nothing and cannot commit.
    let mut tx = manager.begin_with_isolation(IsolationLevel::Serializable).unwrap();
    tx.before_statement(&mut manager, true).unwrap();
    tx.before_statement(&mut manager, false).unwrap();
    tx.abort(&mut manager);
    assert!(matches!(tx.commit(&mut manager, &[]), Err(BustubxError::Transaction(_))));
    assert!(tx.ensure_active().is_err());
    assert_eq!(manager.version(), 1);
    // A dropped transaction (aborted) releases its locks: the next writer
    // gets the exclusive lock.
    let mut dropped = manager.begin_with_isolation(IsolationLevel::Serializable).unwrap();
    dropped.before_statement(&mut manager, true).unwrap();
    dropped.abort(&mut manager);
    let mut tx = manager.begin_with_isolation(IsolationLevel::Serializable).unwrap();
    tx.before_statement(&mut manager, true).unwrap();
    // A failed statement aborts the transaction; its commit is refused.
    tx.abort(&mut manager);
    assert!(tx.commit(&mut manager, &[]).is_err());
    assert_eq!(manager.version(), 1);
    let mut tx = manager.begin_with_isolation(IsolationLevel::Serializable).unwrap();
    tx.before_statement(&mut manager, true).unwrap();
    tx.before_statement(&mut manager, true).unwrap();
    assert!(matches!(tx.commit(&mut manager, &[]).unwrap(), CommitStep::Published));
    assert_eq!(manager.version(), 2);
}

#[test]
fn strict_two_phase_locking_allows_readers_and_aborts_conflicting_upgrades() {
    let mut manager = setup();
    let mut first = manager.begin_with_isolation(IsolationLevel::Serializable).unwrap();
    let mut second = manager.begin_with_isolation(IsolationLevel::Serializable).unwrap();
    assert_ne!(first.id(), second.id());
    first.before_statement(&mut manager, false).unwrap();
    second.before_statement(&mut manager, false).unwrap();
    assert!(matches!(
        first.before_statement(&mut manager, true),
        Err(BustubxError::Transaction(_))
    ));
    first.abort(&mut manager);
    assert!(first.commit(&mut manager, &[]).is_err());
    second.before_statement(&mut manager, true).unwrap();
    assert!(matches!(
        manager.begin_with_isolation(IsolationLevel::Serializable),
        Err(BustubxError::Transaction(_))
    ));
    assert!(matches!(second.commit(&mut manager, &[]).unwrap(), CommitStep::Published));
    assert!(manager.begin_with_isolation(IsolationLevel::Serializable).is_ok());
}

#[test]
fn snapshot_readers_end_without_publishing() {
    let mut manager = setup();
    let mut old = snapshot(&mut manager);
    let mut writer = snapshot(&mut manager);
    writer.before_statement(&mut manager, true).unwrap();
    assert!(matches!(writer.commit(&mut manager, &[]).unwrap(), CommitStep::Published));
    let mut writer = snapshot(&mut manager);
    writer.before_statement(&mut manager, true).unwrap();
    assert!(matches!(writer.commit(&mut manager, &[]).unwrap(), CommitStep::Published));
    old.before_statement(&mut manager, false).unwrap();
    // A read-only snapshot ends without publishing.
    assert!(matches!(old.commit(&mut manager, &[]).unwrap(), CommitStep::ReadOnly));
    assert_eq!(manager.version(), 3);
}

#[test]
fn first_committer_wins_and_mixed_locking_is_safe() {
    let mut manager = setup();
    let mut a = snapshot(&mut manager);
    let mut b = snapshot(&mut manager);
    a.before_statement(&mut manager, true).unwrap();
    b.before_statement(&mut manager, true).unwrap();
    assert!(matches!(a.commit(&mut manager, &[]).unwrap(), CommitStep::Published));
    assert!(b.commit(&mut manager, &[]).is_err());
    assert!(b.ensure_active().is_err());
    // A serializable reader blocks a snapshot writer's commit.
    let mut reader = manager.begin_with_isolation(IsolationLevel::Serializable).unwrap();
    let mut writer = snapshot(&mut manager);
    writer.before_statement(&mut manager, true).unwrap();
    assert!(writer.commit(&mut manager, &[]).is_err());
    reader.abort(&mut manager);
    let mut strict = manager.begin_with_isolation(IsolationLevel::Serializable).unwrap();
    strict.before_statement(&mut manager, true).unwrap();
    // A snapshot reader does not wait for or block the strict writer.
    let mut old = snapshot(&mut manager);
    assert!(matches!(strict.commit(&mut manager, &[]).unwrap(), CommitStep::Published));
    assert!(matches!(old.commit(&mut manager, &[]).unwrap(), CommitStep::ReadOnly));
}

/// A journal holding the record of version 0 with `payload`, and its bytes.
fn durable(payload: &[u8]) -> (ManagerCore, Vec<u8>) {
    let mut journal = JournalState::new();
    let bytes = journal.prepare_append(payload).unwrap();
    journal.finish_append(true).unwrap();
    (ManagerCore::with_journal(journal).unwrap(), bytes)
}

#[test]
fn journal_failure_refuses_new_transactions() {
    let (mut manager, _) = durable(b"v0");
    assert!(manager.ensure_journal_usable().is_ok());
    let tx = manager.begin_with_isolation(IsolationLevel::SnapshotIsolation).unwrap();
    assert_eq!(tx.id(), 1);
    let mut tx = manager.begin_with_isolation(IsolationLevel::Serializable).unwrap();
    assert_eq!(tx.id(), 2);
    assert_eq!(manager.version(), 0);
    // A record that could not be written aborts the commit and makes the
    // journal unusable.
    tx.before_statement(&mut manager, true).unwrap();
    assert!(matches!(tx.commit(&mut manager, b"v1").unwrap(), CommitStep::Append(_)));
    assert!(tx.finish_commit(&mut manager, false).is_err());
    assert_eq!(manager.version(), 0);
    assert!(manager.ensure_journal_usable().is_err());
    assert!(matches!(
        manager.begin_with_isolation(IsolationLevel::SnapshotIsolation),
        Err(BustubxError::Transaction(_))
    ));
    // A journal without records, or a failed one, backs no manager.
    assert!(ManagerCore::with_journal(JournalState::new()).is_none());
    let mut failed = JournalState::new();
    assert!(failed.finish_append(false).is_err());
    assert!(ManagerCore::with_journal(failed).is_none());
}

#[test]
fn durable_commits_reopen_and_conflicts_do_not_publish() {
    let (mut manager, mut file) = durable(b"initial");
    // A written commit hands back its record; once written, it publishes.
    let mut a = snapshot(&mut manager);
    let mut b = snapshot(&mut manager);
    a.before_statement(&mut manager, true).unwrap();
    b.before_statement(&mut manager, true).unwrap();
    let bytes = match a.commit(&mut manager, b"with 2").unwrap() {
        CommitStep::Append(bytes) => bytes,
        _ => panic!("expected a journal record"),
    };
    assert!(a.is_committing());
    // While the record is written, the committer holds the exclusive lock.
    assert!(b.commit(&mut manager, b"with 3").is_err());
    assert_eq!(manager.version(), 0);
    file.extend(bytes);
    a.finish_commit(&mut manager, true).unwrap();
    assert_eq!(manager.version(), 1);
    assert!(a.finish_commit(&mut manager, true).is_err());
    // Reopening recovers the latest commit.
    let (kept, latest) = scan_journal(&file).unwrap();
    assert_eq!(kept, file.len());
    assert_eq!(latest, Some((1, b"with 2".to_vec())));
    // A read-only commit appends nothing.
    let mut reader = snapshot(&mut manager);
    assert!(matches!(reader.commit(&mut manager, &[]).unwrap(), CommitStep::ReadOnly));
    // A recovered journal continues with the next version.
    let (state, _, _) = JournalState::recover(&file).unwrap();
    let mut reopened = ManagerCore::with_journal(state).unwrap();
    assert_eq!(reopened.version(), 1);
    let mut c = reopened.begin_with_isolation(IsolationLevel::Serializable).unwrap();
    c.before_statement(&mut reopened, true).unwrap();
    match c.commit(&mut reopened, b"with 4").unwrap() {
        CommitStep::Append(bytes) => file.extend(bytes),
        _ => panic!("expected a journal record"),
    }
    c.finish_commit(&mut reopened, true).unwrap();
    assert_eq!(scan_journal(&file).unwrap().1, Some((2, b"with 4".to_vec())));
    // An uncommitted write leaves nothing to recover.
    let mut d = reopened.begin_with_isolation(IsolationLevel::Serializable).unwrap();
    d.before_statement(&mut reopened, true).unwrap();
    d.abort(&mut reopened);
    assert_eq!(scan_journal(&file).unwrap().1, Some((2, b"with 4".to_vec())));
}

#[test]
fn snapshot_begin_takes_no_lock() {
    let mut manager = setup();
    let mut strict = manager.begin_with_isolation(IsolationLevel::Serializable).unwrap();
    strict.before_statement(&mut manager, true).unwrap();
    // Snapshot transactions begin even while a writer holds the lock.
    let snap = snapshot(&mut manager);
    assert!(snap.is_active());
    assert!(manager.begin_with_isolation(IsolationLevel::Serializable).is_err());
    strict.abort(&mut manager);
    assert!(manager.begin_with_isolation(IsolationLevel::Serializable).is_ok());
}

#[test]
fn a_failed_statement_aborts_the_transaction() {
    let mut manager = setup();
    let mut tx = manager.begin_with_isolation(IsolationLevel::Serializable).unwrap();
    tx.before_statement(&mut manager, true).unwrap();
    tx.statement_finished(&mut manager, true);
    assert!(tx.is_active());
    tx.statement_finished(&mut manager, false);
    assert!(!tx.is_active());
    // Its exclusive lock is released.
    let mut other = manager.begin_with_isolation(IsolationLevel::Serializable).unwrap();
    other.before_statement(&mut manager, true).unwrap();
}
