//! A transaction's bookkeeping: whether it is still active, whether it has
//! written, and the decisions of statement execution, commit and abort.
use crate::transaction::lock_manager::{after_exclusive, after_release, exclusive_granted, locks_compatible};
use crate::transaction::recovery::{next_version, spec_record, JournalView};
use crate::transaction::transaction_manager::{
    after_begin, begin_refusal, begun, journal_failed, BeginRefusal, IsolationLevel, ManagerCore,
    ManagerView,
};
use crate::transaction::TransactionId;
use crate::BustubxError;
use vstd::prelude::*;

verus! {

/// Abstract state of a transaction.
pub struct TxView {
    pub id: TransactionId,
    /// Still holds its private database copy (not committed or aborted).
    pub active: bool,
    /// Committed, waiting for its journal record to be written.
    pub committing: bool,
    /// Has executed a writing statement.
    pub dirty: bool,
    pub isolation: IsolationLevel,
    /// The committed version its private copy was taken from.
    pub base_version: u64,
}

/// What a successful commit call hands back.
pub enum CommitStep {
    /// Nothing was written: the transaction ended.
    ReadOnly,
    /// Published (no journal).
    Published,
    /// The journal record to write and sync, then report to `finish_commit`.
    Append(Vec<u8>),
}

/// How a commit ends.
pub enum CommitOutcome {
    /// Already committed or aborted.
    NotActive,
    /// Nothing written: the copy is discarded, locks released.
    ReadOnly,
    /// Written and conflict-free, without a journal: the copy becomes the
    /// new committed version.
    Published,
    /// Written and conflict-free, with a journal: the record of the next
    /// version must be written and synced before the copy is published.
    Appending,
    /// The journal failed earlier: aborted.
    JournalFailed,
    /// Another commit happened since the base version, or another
    /// transaction holds a lock: aborted.
    Conflict,
    /// The version counter cannot advance: aborted.
    VersionsExhausted,
}

/// The outcome of committing `t` in manager state `m`.
pub open spec fn commit_outcome(m: ManagerView, t: TxView) -> CommitOutcome {
    if !t.active {
        CommitOutcome::NotActive
    } else if !t.dirty {
        CommitOutcome::ReadOnly
    } else if m.version != t.base_version || !exclusive_granted(m.locks, t.id) {
        CommitOutcome::Conflict
    } else if m.version == u64::MAX {
        CommitOutcome::VersionsExhausted
    } else if m.journal is None {
        CommitOutcome::Published
    } else if journal_failed(m) {
        CommitOutcome::JournalFailed
    } else {
        CommitOutcome::Appending
    }
}

/// The manager after committing `t` in state `m` with the snapshot
/// `payload`: a published commit advances the version by one; an
/// appending commit keeps its locks and prepares the journal record of the
/// next version with `payload`; every other commit releases the locks of
/// `t`.
pub open spec fn after_commit(m: ManagerView, t: TxView, payload: Seq<u8>) -> ManagerView {
    if !t.active {
        m
    } else {
        match commit_outcome(m, t) {
            CommitOutcome::Appending => ManagerView {
                locks: after_exclusive(m.locks, t.id),
                journal: Some(
                    JournalView {
                        pending: Some(((m.version + 1) as u64, payload)),
                        ..m.journal->Some_0
                    },
                ),
                ..m
            },
            CommitOutcome::Published => ManagerView {
                locks: after_release(m.locks, t.id),
                version: (m.version + 1) as u64,
                ..m
            },
            _ => ManagerView { locks: after_release(m.locks, t.id), ..m },
        }
    }
}

/// The transaction after committing.
pub open spec fn tx_after_commit(m: ManagerView, t: TxView) -> TxView {
    if !t.active {
        t
    } else {
        TxView { active: false, committing: commit_outcome(m, t) is Appending, ..t }
    }
}

/// Whether finishing the commit of `t` publishes: `t` awaits its record,
/// the journal has it prepared, and it was written to a usable journal.
pub open spec fn finish_publishes(m: ManagerView, t: TxView, written: bool) -> bool {
    t.committing && written && match m.journal {
        Some(j) => j.pending is Some && !j.failed,
        None => false,
    }
}

/// The manager after finishing the commit of `t`, whose record was
/// `written` (or not): the locks of `t` are released; a published record
/// becomes the journal's latest and its version the committed one; a
/// failed write makes the journal unusable.
pub open spec fn after_finish(m: ManagerView, t: TxView, written: bool) -> ManagerView {
    if !t.committing {
        m
    } else if !(m.journal matches Some(j) && j.pending is Some) {
        ManagerView { locks: after_release(m.locks, t.id), ..m }
    } else {
        let j = m.journal->Some_0;
        let (v, p) = j.pending->Some_0;
        if finish_publishes(m, t, written) {
            ManagerView {
                locks: after_release(m.locks, t.id),
                version: v,
                journal: Some(
                    JournalView {
                        contents: j.contents + spec_record(v, p),
                        latest: Some((v, p)),
                        pending: None,
                        ..j
                    },
                ),
                ..m
            }
        } else {
            ManagerView {
                locks: after_release(m.locks, t.id),
                journal: Some(JournalView { failed: true, pending: None, ..j }),
                ..m
            }
        }
    }
}

/// The manager after aborting `t` in state `m`.
pub open spec fn after_abort(m: ManagerView, t: TxView) -> ManagerView {
    if t.active || t.committing {
        ManagerView { locks: after_release(m.locks, t.id), ..m }
    } else {
        m
    }
}

/// Whether a statement of `t` is refused before it runs: a first write of a
/// serializable transaction must upgrade to the exclusive lock.
pub open spec fn write_refused(m: ManagerView, t: TxView, is_write: bool) -> bool {
    is_write && !t.dirty && t.isolation == IsolationLevel::Serializable && !exclusive_granted(
        m.locks,
        t.id,
    )
}

/// The manager after the write check of a statement of `t`.
pub open spec fn after_write_check(m: ManagerView, t: TxView, is_write: bool) -> ManagerView {
    if is_write && !t.dirty && t.isolation == IsolationLevel::Serializable {
        ManagerView { locks: after_exclusive(m.locks, t.id), ..m }
    } else {
        m
    }
}


/// A transaction that ran no writing statement always commits, as a
/// read-only commit, whatever locks other transactions hold (a reader's
/// commit takes no exclusive lock): the commit hands back
/// `CommitStep::ReadOnly`, ends the transaction, and changes the manager
/// only by releasing that transaction's locks; every other transaction
/// keeps exactly the locks it held, and the version and journal stay.
pub proof fn lemma_read_only_commit_succeeds(
    m: ManagerView,
    t: TxView,
    payload: Seq<u8>,
    other: TransactionId,
)
    requires
        t.active,
        !t.dirty,
        other != t.id,
    ensures
        commit_outcome(m, t) is ReadOnly,
        !tx_after_commit(m, t).active,
        !tx_after_commit(m, t).committing,
        ({
            let n = after_commit(m, t, payload);
            &&& n.version == m.version
            &&& n.next_id == m.next_id
            &&& n.journal == m.journal
            &&& !n.locks.readers.contains(t.id)
            &&& n.locks.writer != Some(t.id)
            &&& n.locks.readers.contains(other) == m.locks.readers.contains(other)
            &&& (n.locks.writer == Some(other)) == (m.locks.writer == Some(other))
        }),
{
}

/// A transaction that wrote succeeds in committing exactly when no commit
/// happened since its base version, it can hold the exclusive lock, the
/// version can advance and the journal (if any) has not failed; then,
/// without a journal, the version advances by one and its locks are
/// released, and with one, it holds the exclusive lock while the record of
/// the next version is written. Otherwise it is aborted with its locks
/// released and the version unchanged.
pub proof fn lemma_written_commit_succeeds_iff(m: ManagerView, t: TxView, payload: Seq<u8>)
    requires
        t.active,
        t.dirty,
    ensures
        (commit_outcome(m, t) is Published || commit_outcome(m, t) is Appending) <==> (m.version
            == t.base_version && exclusive_granted(m.locks, t.id) && m.version < u64::MAX
            && !journal_failed(m)),
        commit_outcome(m, t) is Published <==> (m.version == t.base_version && exclusive_granted(
            m.locks,
            t.id,
        ) && m.version < u64::MAX && m.journal is None),
        commit_outcome(m, t) is Published ==> after_commit(m, t, payload).version == m.version + 1
            && !after_commit(m, t, payload).locks.readers.contains(t.id)
            && after_commit(m, t, payload).locks.writer != Some(t.id),
        commit_outcome(m, t) is Appending ==> after_commit(m, t, payload).version == m.version
            && after_commit(m, t, payload).locks.writer == Some(t.id)
            && after_commit(m, t, payload).journal->Some_0.pending == Some(
            ((m.version + 1) as u64, payload),
        ),
        !(commit_outcome(m, t) is Published || commit_outcome(m, t) is Appending) ==> after_commit(
            m,
            t,
            payload,
        ).version == m.version && !after_commit(m, t, payload).locks.readers.contains(t.id)
            && after_commit(m, t, payload).locks.writer != Some(t.id),
{
}

/// First committer wins: of two written transactions begun on the same
/// committed version, once one commits (publishing at once, or holding
/// the exclusive lock while its journal record is written, then
/// publishing), the other's commit is a conflict, so no committed update
/// is lost.
pub proof fn lemma_first_committer_wins(
    m: ManagerView,
    a: TxView,
    b: TxView,
    payload: Seq<u8>,
    written: bool,
)
    requires
        a.active,
        b.active,
        b.dirty,
        a.id != b.id,
        a.base_version == b.base_version,
        commit_outcome(m, a) is Published || commit_outcome(m, a) is Appending,
    ensures
        commit_outcome(after_commit(m, a, payload), b) is Conflict,
        commit_outcome(m, a) is Published ==> after_commit(m, a, payload).version == m.version + 1,
        ({
            let m2 = after_commit(m, a, payload);
            let m3 = after_finish(m2, tx_after_commit(m, a), written);
            commit_outcome(m, a) is Appending && finish_publishes(m2, tx_after_commit(m, a), written)
                ==> m3.version == m.version + 1 && commit_outcome(m3, b) is Conflict
        }),
{
}

/// Strict two-phase locking: once a serializable transaction's first write
/// is admitted, it holds the exclusive lock; every other serializable
/// transaction's first write is then refused, and so is a serializable
/// begin, until the writer commits or aborts.
pub proof fn lemma_admitted_writer_excludes_others(m: ManagerView, t: TxView, u: TxView)
    requires
        locks_compatible(m.locks),
        t.isolation == IsolationLevel::Serializable,
        !t.dirty,
        !write_refused(m, t, true),
        u.id != t.id,
        u.isolation == IsolationLevel::Serializable,
        !u.dirty,
    ensures
        after_write_check(m, t, true).locks.writer == Some(t.id),
        write_refused(after_write_check(m, t, true), u, true),
        m.next_id != t.id && m.next_id < u64::MAX && !journal_failed(m) ==> begin_refusal(
            after_write_check(m, t, true),
            IsolationLevel::Serializable,
        ) == Some(BeginRefusal::LockedByWriter),
{
}

/// Readers block upgrades: while another transaction holds a shared lock,
/// the first write of a serializable transaction is refused (no waiting).
pub proof fn lemma_reader_blocks_upgrade(m: ManagerView, t: TxView, reader: TransactionId)
    requires
        reader != t.id,
        m.locks.readers.contains(reader),
        t.isolation == IsolationLevel::Serializable,
        !t.dirty,
    ensures
        write_refused(m, t, true),
{
}

/// A transaction ends once: after commit (once its journal record, if
/// any, is finished) or abort it holds no lock, and a further commit is
/// refused as not active.
pub proof fn lemma_ended_transaction_holds_nothing(
    m: ManagerView,
    t: TxView,
    payload: Seq<u8>,
    written: bool,
)
    requires
        t.active,
        !t.committing,
    ensures
        ({
            let m2 = after_commit(m, t, payload);
            let t2 = tx_after_commit(m, t);
            let m3 = after_finish(m2, t2, written);
            let t3 = TxView { committing: false, ..t2 };
            &&& !m3.locks.readers.contains(t.id)
            &&& m3.locks.writer != Some(t.id)
            &&& commit_outcome(m3, t3) is NotActive
            &&& !t2.committing ==> m3 == m2
        }),
        !after_abort(m, t).locks.readers.contains(t.id),
        after_abort(m, t).locks.writer != Some(t.id),
        commit_outcome(after_abort(m, t), TxView { active: false, ..t }) is NotActive,
        after_abort(m, t).version == m.version,
{
}

/// Snapshot transactions take no locks: their begin leaves the lock table
/// unchanged, and they start from the latest committed version.
pub proof fn lemma_snapshot_begin_takes_no_lock(m: ManagerView)
    requires
        begin_refusal(m, IsolationLevel::SnapshotIsolation) is None,
    ensures
        after_begin(m, IsolationLevel::SnapshotIsolation).locks == m.locks,
        begun(m, IsolationLevel::SnapshotIsolation).base_version == m.version,
{
}

/// Only a published commit changes the committed version, and by exactly
/// one: at once without a journal, or when its journal record has been
/// written; read-only, refused, unwritten and aborted commits leave it.
pub proof fn lemma_version_advances_only_on_publish(
    m: ManagerView,
    t: TxView,
    payload: Seq<u8>,
    written: bool,
)
    requires
        m.journal matches Some(j) && j.pending matches Some((v, _)) ==> v == m.version + 1,
    ensures
        after_commit(m, t, payload).version == if t.active && commit_outcome(m, t) is Published {
            m.version + 1
        } else {
            m.version as int
        },
        after_finish(m, t, written).version == if finish_publishes(m, t, written) {
            m.version + 1
        } else {
            m.version as int
        },
        after_abort(m, t).version == m.version,
{
}

/// Commits are durable: when a written transaction commits with a journal
/// whose recovery returns the committed version, and its record is
/// written, the journal's bytes gain exactly that record and recovery from
/// them returns the new version with the committed snapshot.
pub proof fn lemma_commit_is_durable(m: ManagerView, t: TxView, payload: Seq<u8>)
    requires
        t.active,
        commit_outcome(m, t) is Appending,
        m.journal matches Some(j) && crate::transaction::recovery::spec_scan(j.contents) == Ok::<
            crate::transaction::recovery::ScanOutcome,
            crate::transaction::recovery::JournalError,
        >((j.contents.len() as int, j.latest)) && crate::transaction::recovery::latest_version_of(
            j.latest,
        ) == Some(m.version),
        payload.len() <= u64::MAX,
    ensures
        ({
            let v = (m.version + 1) as u64;
            let m2 = after_commit(m, t, payload);
            let m3 = after_finish(m2, tx_after_commit(m, t), true);
            let j = m.journal->Some_0;
            &&& finish_publishes(m2, tx_after_commit(m, t), true)
            &&& m3.version == v
            &&& m3.journal->Some_0.contents == j.contents + spec_record(v, payload)
            &&& crate::transaction::recovery::spec_scan(m3.journal->Some_0.contents) == Ok::<
                crate::transaction::recovery::ScanOutcome,
                crate::transaction::recovery::JournalError,
            >(
                (
                    m3.journal->Some_0.contents.len() as int,
                    Some((v, payload)),
                ),
            )
        }),
{
    let j = m.journal->Some_0;
    assert(next_version(j.latest) == Some((m.version + 1) as u64));
    crate::transaction::recovery::lemma_append_record(
        j.contents,
        j.latest,
        (m.version + 1) as u64,
        payload,
    );
}

/// A transaction's bookkeeping; the private database copy is held beside
/// it by the caller while the transaction is active.
pub struct TransactionCore {
    id: TransactionId,
    active: bool,
    committing: bool,
    dirty: bool,
    isolation: IsolationLevel,
    base_version: u64,
}

impl View for TransactionCore {
    type V = TxView;

    closed spec fn view(&self) -> TxView {
        TxView {
            id: self.id,
            active: self.active,
            committing: self.committing,
            dirty: self.dirty,
            isolation: self.isolation,
            base_version: self.base_version,
        }
    }
}

fn inactive_error() -> (r: BustubxError)
    ensures
        r is Transaction,
{
    BustubxError::Transaction("Transaction is no longer active".to_owned())
}

impl TransactionCore {
    pub(crate) fn started(id: TransactionId, isolation: IsolationLevel, base_version: u64) -> (r:
        Self)
        ensures
            r@ == (TxView {
                id,
                active: true,
                committing: false,
                dirty: false,
                isolation,
                base_version,
            }),
    {
        TransactionCore { id, active: true, committing: false, dirty: false, isolation, base_version }
    }

    /// This transaction's id.
    pub fn id(&self) -> (r: TransactionId)
        ensures
            r == self@.id,
    {
        self.id
    }

    /// Whether the transaction is still active.
    pub fn is_active(&self) -> (r: bool)
        ensures
            r == self@.active,
    {
        self.active
    }

    /// A statement (or any use of the private copy) is refused once the
    /// transaction has committed or aborted.
    pub fn ensure_active(&self) -> (r: Result<(), BustubxError>)
        ensures
            r is Ok <==> self@.active,
            r matches Err(e) ==> e is Transaction,
    {
        if !self.active {
            return Err(inactive_error());
        }
        Ok(())
    }

    /// Decide whether a planned statement may run: the first write of a
    /// serializable transaction upgrades to the exclusive lock, without
    /// waiting; the upgrade's refusal refuses the statement. A first write
    /// marks the transaction dirty.
    pub fn before_statement(&mut self, manager: &mut ManagerCore, is_write: bool) -> (r: Result<
        (),
        BustubxError,
    >)
        requires
            old(manager).wf(),
        ensures
            final(manager).wf(),
            final(manager)@ == after_write_check(old(manager)@, old(self)@, is_write),
            r is Err <==> write_refused(old(manager)@, old(self)@, is_write),
            r matches Err(e) ==> e is Transaction,
            final(self)@ == (TxView {
                dirty: old(self)@.dirty || (is_write && !write_refused(
                    old(manager)@,
                    old(self)@,
                    is_write,
                )),
                ..old(self)@
            }),
    {
        if is_write && !self.dirty {
            if self.isolation == IsolationLevel::Serializable && !manager.lock_exclusive(self.id) {
                return Err(
                    BustubxError::Transaction(
                        "Lock upgrade conflict; transaction aborted".to_owned(),
                    ),
                );
            }
            self.dirty = true;
        }
        Ok(())
    }

    /// Whether the transaction awaits its journal record.
    pub fn is_committing(&self) -> (r: bool)
        ensures
            r == self@.committing,
    {
        self.committing
    }

    /// Whether the transaction has written.
    pub fn is_dirty(&self) -> (r: bool)
        ensures
            r == self@.dirty,
    {
        self.dirty
    }

    /// After a statement ran: a failed statement aborts the transaction
    /// (its locks are released); a successful one changes nothing.
    pub fn statement_finished(&mut self, manager: &mut ManagerCore, succeeded: bool)
        requires
            old(manager).wf(),
        ensures
            final(manager).wf(),
            succeeded ==> final(manager)@ == old(manager)@ && final(self)@ == old(self)@,
            !succeeded ==> final(manager)@ == after_abort(old(manager)@, old(self)@) && final(self)@
                == (TxView { active: false, committing: false, ..old(self)@ }),
    {
        if !succeeded {
            self.abort(manager);
        }
    }

    /// Commit, with `payload` the full-image snapshot of the private copy
    /// (read only when the commit publishes with a journal). A read-only
    /// transaction just ends. A written one is refused, and aborted, when a
    /// commit happened since its base version, another transaction holds a
    /// lock, versions are exhausted or the journal failed. Otherwise,
    /// without a journal its copy is published at once; with a journal the
    /// transaction keeps its locks and hands back the journal record of the
    /// next version with `payload`, which must be written and synced before
    /// `finish_commit` publishes it.
    pub fn commit(&mut self, manager: &mut ManagerCore, payload: &[u8]) -> (r: Result<
        CommitStep,
        BustubxError,
    >)
        requires
            old(manager).wf(),
        ensures
            final(manager).wf(),
            final(manager)@ == after_commit(old(manager)@, old(self)@, payload@),
            final(self)@ == tx_after_commit(old(manager)@, old(self)@),
            match commit_outcome(old(manager)@, old(self)@) {
                CommitOutcome::ReadOnly => r matches Ok(CommitStep::ReadOnly),
                CommitOutcome::Published => r matches Ok(CommitStep::Published),
                CommitOutcome::Appending => r matches Ok(CommitStep::Append(bytes)) && bytes@
                    == spec_record((old(manager)@.version + 1) as u64, payload@),
                _ => r matches Err(e) && e is Transaction,
            },
    {
        proof {
            manager.lemma_wf_facts();
        }
        if !self.active {
            return Err(inactive_error());
        }
        self.active = false;
        self.committing = false;
        if !self.dirty {
            manager.release(self.id);
            return Ok(CommitStep::ReadOnly);
        }
        if manager.version() != self.base_version || !manager.lock_exclusive(self.id) {
            manager.release(self.id);
            return Err(BustubxError::Transaction("Write conflict; transaction aborted".to_owned()));
        }
        if manager.version() == u64::MAX {
            manager.release(self.id);
            return Err(BustubxError::Transaction("Commit versions exhausted".to_owned()));
        }
        if !manager.is_durable() {
            manager.publish_next();
            manager.release(self.id);
            return Ok(CommitStep::Published);
        }
        match manager.prepare_record(payload) {
            Ok(bytes) => {
                self.committing = true;
                Ok(CommitStep::Append(bytes))
            },
            Err(e) => {
                manager.release(self.id);
                Err(e)
            },
        }
    }

    /// Finish a commit whose journal record was `written` (and synced), or
    /// not: the transaction's locks are released; a written record of a
    /// usable journal publishes its version, and otherwise the commit is
    /// aborted (a failed write makes the journal unusable).
    pub fn finish_commit(&mut self, manager: &mut ManagerCore, written: bool) -> (r: Result<
        (),
        BustubxError,
    >)
        requires
            old(manager).wf(),
        ensures
            final(manager).wf(),
            final(manager)@ == after_finish(old(manager)@, old(self)@, written),
            final(self)@ == (TxView { committing: false, ..old(self)@ }),
            r is Ok <==> finish_publishes(old(manager)@, old(self)@, written),
            r matches Err(e) ==> e is Transaction,
    {
        if !self.committing {
            return Err(inactive_error());
        }
        self.committing = false;
        if !manager.has_pending_record() {
            manager.release(self.id);
            return Err(
                BustubxError::Transaction("No journal record prepared; transaction aborted".to_owned()),
            );
        }
        let r = manager.complete_record(written);
        manager.release(self.id);
        r
    }

    /// Abort: discard the private copy and release all locks; no effect on
    /// a transaction that already ended.
    pub fn abort(&mut self, manager: &mut ManagerCore)
        requires
            old(manager).wf(),
        ensures
            final(manager).wf(),
            final(manager)@ == after_abort(old(manager)@, old(self)@),
            final(self)@ == (TxView { active: false, committing: false, ..old(self)@ }),
    {
        if self.active || self.committing {
            self.active = false;
            self.committing = false;
            manager.release(self.id);
        }
    }
}

} // verus!
