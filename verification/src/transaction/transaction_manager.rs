//! The manager's shared state: the lock table, transaction id allocation,
//! the committed version, and the durable journal's bookkeeping.
use crate::transaction::lock_manager::{
    after_exclusive, after_release, after_shared, exclusive_granted, shared_granted, LockManager,
    LockView,
};
use crate::transaction::recovery::{
    latest_version_of, next_version, spec_record, JournalState, JournalView,
};
use crate::transaction::transaction::{TransactionCore, TxView};
use crate::transaction::TransactionId;
use crate::BustubxError;
use vstd::prelude::*;

verus! {

/// How a transaction sees other transactions' commits.
#[derive(Debug, Clone, Copy, PartialEq, Eq, Structural)]
pub enum IsolationLevel {
    /// Strict two-phase locking on the whole database.
    Serializable,
    /// A private copy of the latest committed version; first committer wins.
    SnapshotIsolation,
}

/// Abstract state of the manager.
pub struct ManagerView {
    pub locks: LockView,
    pub next_id: TransactionId,
    pub version: u64,
    /// The durable journal, if the manager has one.
    pub journal: Option<JournalView>,
}

/// Whether the manager's journal has failed.
pub open spec fn journal_failed(m: ManagerView) -> bool {
    m.journal matches Some(j) && j.failed
}

/// Whether every lock holder's id was handed out already (is below
/// `next_id`), as begins keep it.
pub open spec fn holders_issued(m: ManagerView) -> bool {
    &&& forall|r: TransactionId| m.locks.readers.contains(r) ==> r < m.next_id
    &&& m.locks.writer matches Some(w) ==> w < m.next_id
}

/// Why `begin_with_isolation` refuses, if it does.
pub enum BeginRefusal {
    JournalFailed,
    IdsExhausted,
    LockedByWriter,
}

/// The refusal a begin meets in state `m`, or `None` when it succeeds.
pub open spec fn begin_refusal(m: ManagerView, isolation: IsolationLevel) -> Option<BeginRefusal> {
    if journal_failed(m) {
        Some(BeginRefusal::JournalFailed)
    } else if m.next_id == u64::MAX {
        Some(BeginRefusal::IdsExhausted)
    } else if isolation == IsolationLevel::Serializable && !shared_granted(m.locks, m.next_id) {
        Some(BeginRefusal::LockedByWriter)
    } else {
        None
    }
}

/// The manager after a begin in state `m`.
pub open spec fn after_begin(m: ManagerView, isolation: IsolationLevel) -> ManagerView {
    match begin_refusal(m, isolation) {
        Some(BeginRefusal::JournalFailed) => m,
        Some(BeginRefusal::IdsExhausted) => m,
        Some(BeginRefusal::LockedByWriter) => ManagerView { next_id: (m.next_id + 1) as u64, ..m },
        None => ManagerView {
            next_id: (m.next_id + 1) as u64,
            locks: if isolation == IsolationLevel::Serializable {
                after_shared(m.locks, m.next_id)
            } else {
                m.locks
            },
            ..m
        },
    }
}

/// The transaction a successful begin in state `m` hands out.
pub open spec fn begun(m: ManagerView, isolation: IsolationLevel) -> TxView {
    TxView {
        id: m.next_id,
        active: true,
        committing: false,
        dirty: false,
        isolation,
        base_version: m.version,
    }
}

/// With every lock holder's id issued, a serializable begin that the
/// journal and the id supply allow is refused exactly when another
/// transaction holds the exclusive lock; and a begin keeps every holder's
/// id issued.
pub proof fn lemma_begin_refused_iff_writer(m: ManagerView, isolation: IsolationLevel)
    requires
        holders_issued(m),
        m.next_id < u64::MAX,
    ensures
        !journal_failed(m) && isolation == IsolationLevel::Serializable ==> ((begin_refusal(
            m,
            isolation,
        ) == Some(BeginRefusal::LockedByWriter)) <==> m.locks.writer is Some),
        holders_issued(after_begin(m, isolation)),
{
}

/// Shared state of a transaction manager (the committed database itself is
/// held beside it by the caller).
pub struct ManagerCore {
    locks: LockManager,
    next_id: TransactionId,
    version: u64,
    journal: Option<JournalState>,
}

impl View for ManagerCore {
    type V = ManagerView;

    closed spec fn view(&self) -> ManagerView {
        ManagerView {
            locks: self.locks@,
            next_id: self.next_id,
            version: self.version,
            journal: match self.journal {
                None => None,
                Some(j) => Some(j@),
            },
        }
    }
}

/// Whether a manager's journal agrees with its committed version: a usable
/// journal's latest record is of the committed version.
pub open spec fn journal_agrees(m: ManagerView) -> bool {
    match m.journal {
        Some(j) => !j.failed ==> latest_version_of(j.latest) == Some(m.version),
        None => true,
    }
}

impl ManagerCore {
    /// The lock table and the journal are well formed, and a usable
    /// journal's latest record is of the committed version.
    pub closed spec fn wf(&self) -> bool {
        &&& self.locks.wf()
        &&& self.journal matches Some(j) ==> j.wf()
        &&& journal_agrees(self@)
    }

    /// Shared and exclusive locks are compatible, and a usable journal
    /// recovers the committed version: reopening the journal's bytes gives
    /// back the latest commit.
    pub proof fn lemma_wf_facts(&self)
        requires
            self.wf(),
        ensures
            crate::transaction::lock_manager::locks_compatible(self@.locks),
            journal_agrees(self@),
            match self@.journal {
                Some(j) => !j.failed ==> crate::transaction::recovery::spec_scan(j.contents) == Ok::<
                    crate::transaction::recovery::ScanOutcome,
                    crate::transaction::recovery::JournalError,
                >((j.contents.len() as int, j.latest)),
                None => true,
            },
            match self@.journal {
                Some(j) => !j.failed && j.pending is Some ==> j.pending->Some_0.0 == self@.version
                    + 1,
                None => true,
            },
    {
        self.locks.lemma_compatible();
        if let Some(j) = &self.journal {
            j.lemma_recovers_latest();
        }
    }

    /// A manager without a journal whose committed version is `version`.
    /// Ids start at 1; no locks are held.
    pub fn new(version: u64) -> (r: Self)
        ensures
            r.wf(),
            r@.locks.readers == Set::<TransactionId>::empty(),
            r@.locks.writer is None,
            r@.next_id == 1,
            r@.version == version,
            r@.journal is None,
    {
        ManagerCore { locks: LockManager::new(), next_id: 1, version, journal: None }
    }

    /// A manager over a recovered journal, at the journal's latest
    /// version; `None` when the journal holds no record or a write to it
    /// failed.
    pub fn with_journal(journal: JournalState) -> (r: Option<Self>)
        requires
            journal.wf(),
        ensures
            r is Some <==> !journal@.failed && journal@.latest is Some,
            r matches Some(m) ==> {
                &&& m.wf()
                &&& m@.locks.readers == Set::<TransactionId>::empty()
                &&& m@.locks.writer is None
                &&& m@.next_id == 1
                &&& Some(m@.version) == latest_version_of(journal@.latest)
                &&& m@.journal == Some(journal@)
            },
    {
        if journal.ensure_usable().is_err() {
            return None;
        }
        match journal.latest_version() {
            None => None,
            Some(version) => Some(
                ManagerCore { locks: LockManager::new(), next_id: 1, version, journal: Some(journal) },
            ),
        }
    }

    /// The committed version.
    pub fn version(&self) -> (r: u64)
        ensures
            r == self@.version,
    {
        self.version
    }

    /// Whether the manager has a durable journal.
    pub fn is_durable(&self) -> (r: bool)
        ensures
            r == self@.journal is Some,
    {
        self.journal.is_some()
    }

    /// Begin a transaction: refuse if the journal failed or ids are
    /// exhausted; allocate the next id; a serializable transaction takes a
    /// shared lock without waiting. The transaction's base is the committed
    /// version.
    pub fn begin_with_isolation(&mut self, isolation: IsolationLevel) -> (r: Result<
        TransactionCore,
        BustubxError,
    >)
        requires
            old(self).wf(),
        ensures
            final(self).wf(),
            final(self)@ == after_begin(old(self)@, isolation),
            r is Ok <==> begin_refusal(old(self)@, isolation) is None,
            r matches Ok(t) ==> t@ == begun(old(self)@, isolation),
            r matches Err(e) ==> e is Transaction,
    {
        if let Some(journal) = &self.journal {
            journal.ensure_usable()?;
        }
        let id = self.next_id;
        self.next_id = match id.checked_add(1) {
            Some(n) => n,
            None => {
                return Err(BustubxError::Transaction("Transaction IDs exhausted".to_owned()));
            },
        };
        if isolation == IsolationLevel::Serializable && !self.locks.shared(id) {
            return Err(BustubxError::Transaction("Database is locked by a writer".to_owned()));
        }
        Ok(TransactionCore::started(id, isolation, self.version))
    }

    /// Take the exclusive lock for `id`, without waiting.
    pub fn lock_exclusive(&mut self, id: TransactionId) -> (granted: bool)
        requires
            old(self).wf(),
        ensures
            final(self).wf(),
            granted == exclusive_granted(old(self)@.locks, id),
            final(self)@ == (ManagerView { locks: after_exclusive(old(self)@.locks, id), ..old(self)@ }),
    {
        self.locks.exclusive(id)
    }

    /// Release every lock `id` holds (also used when a begin cannot copy
    /// the committed database).
    pub fn release(&mut self, id: TransactionId)
        requires
            old(self).wf(),
        ensures
            final(self).wf(),
            final(self)@ == (ManagerView { locks: after_release(old(self)@.locks, id), ..old(self)@ }),
    {
        self.locks.release(id)
    }

    /// Publish the next version, without a journal.
    pub(crate) fn publish_next(&mut self)
        requires
            old(self).wf(),
            old(self)@.journal is None,
            old(self)@.version < u64::MAX,
        ensures
            final(self).wf(),
            final(self)@ == (ManagerView { version: (old(self)@.version + 1) as u64, ..old(self)@ }),
    {
        self.version = self.version + 1;
    }

    /// Prepare the journal record of the next version with `payload`.
    pub(crate) fn prepare_record(&mut self, payload: &[u8]) -> (r: Result<Vec<u8>, BustubxError>)
        requires
            old(self).wf(),
            old(self)@.journal is Some,
        ensures
            final(self).wf(),
            final(self)@.locks == old(self)@.locks,
            final(self)@.next_id == old(self)@.next_id,
            final(self)@.version == old(self)@.version,
            final(self)@.journal is Some,
            ({
                let j = old(self)@.journal->Some_0;
                let j2 = final(self)@.journal->Some_0;
                &&& r is Ok <==> !j.failed && next_version(j.latest) is Some
                &&& r matches Ok(bytes) ==> bytes@ == spec_record(
                    next_version(j.latest)->Some_0,
                    payload@,
                ) && j2 == (JournalView {
                    pending: Some((next_version(j.latest)->Some_0, payload@)),
                    ..j
                })
                &&& r matches Err(e) ==> e is Transaction && j2 == j
            }),
    {
        let mut journal = self.journal.take().unwrap();
        let r = journal.prepare_append(payload);
        self.journal = Some(journal);
        r
    }

    /// Record whether the prepared journal record was written and synced:
    /// if so, the next version is published; if not, the journal becomes
    /// unusable.
    pub(crate) fn complete_record(&mut self, written: bool) -> (r: Result<(), BustubxError>)
        requires
            old(self).wf(),
            old(self)@.journal matches Some(j) && j.pending is Some,
        ensures
            final(self).wf(),
            final(self)@.locks == old(self)@.locks,
            final(self)@.next_id == old(self)@.next_id,
            ({
                let j = old(self)@.journal->Some_0;
                let (v, p) = j.pending->Some_0;
                &&& r is Ok <==> written && !j.failed
                &&& r matches Err(e) ==> e is Transaction
                &&& r is Ok ==> final(self)@.version == v && final(self)@.journal == Some(
                    JournalView {
                        contents: j.contents + spec_record(v, p),
                        latest: Some((v, p)),
                        pending: None,
                        ..j
                    },
                )
                &&& r is Err ==> final(self)@.version == old(self)@.version && final(self)@.journal
                    == Some(JournalView { failed: true, pending: None, ..j })
            }),
    {
        let mut journal = self.journal.take().unwrap();
        let r = journal.finish_append(written);
        proof {
            journal.lemma_recovers_latest();
        }
        if r.is_ok() {
            self.version = journal.latest_version().unwrap();
        }
        self.journal = Some(journal);
        r
    }

    /// Whether a journal record is prepared and not yet reported.
    pub fn has_pending_record(&self) -> (r: bool)
        ensures
            r == (self@.journal matches Some(j) && j.pending is Some),
    {
        match &self.journal {
            Some(j) => j.has_pending(),
            None => false,
        }
    }

    /// Refuse use after a failed journal write.
    pub fn ensure_journal_usable(&self) -> (r: Result<(), BustubxError>)
        ensures
            r is Ok <==> !journal_failed(self@),
            r matches Err(e) ==> e is Transaction,
    {
        match &self.journal {
            Some(journal) => journal.ensure_usable(),
            None => Ok(()),
        }
    }
}

} // verus!
