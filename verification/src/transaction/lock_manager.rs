//! Database-level strict shared/exclusive locking without waiting.
use crate::transaction::TransactionId;
use std::collections::HashSet;
use vstd::prelude::*;

verus! {

broadcast use vstd::std_specs::hash::group_hash_axioms;

/// Abstract state of the lock table: the set of shared holders and the
/// exclusive holder, if any.
pub struct LockView {
    pub readers: Set<TransactionId>,
    pub writer: Option<TransactionId>,
}

/// The compatibility rule of S/X locking: an exclusive lock is never held
/// together with a shared lock of another transaction.
pub open spec fn locks_compatible(v: LockView) -> bool {
    v.writer matches Some(w) ==> forall|r: TransactionId| v.readers.contains(r) ==> r == w
}

/// Whether `id` could take a shared lock in state `v`.
pub open spec fn shared_granted(v: LockView, id: TransactionId) -> bool {
    v.writer is None || v.writer == Some(id)
}

/// Whether `id` could take the exclusive lock in state `v`: no other
/// transaction holds the exclusive lock or a shared lock.
pub open spec fn exclusive_granted(v: LockView, id: TransactionId) -> bool {
    &&& (v.writer is None || v.writer == Some(id))
    &&& forall|r: TransactionId| v.readers.contains(r) ==> r == id
}

/// State after a shared request by `id`.
pub open spec fn after_shared(v: LockView, id: TransactionId) -> LockView {
    if shared_granted(v, id) {
        LockView { readers: v.readers.insert(id), writer: v.writer }
    } else {
        v
    }
}

/// State after an exclusive request by `id`.
pub open spec fn after_exclusive(v: LockView, id: TransactionId) -> LockView {
    if exclusive_granted(v, id) {
        LockView { readers: v.readers, writer: Some(id) }
    } else {
        v
    }
}

/// State after `id` releases everything it holds.
pub open spec fn after_release(v: LockView, id: TransactionId) -> LockView {
    LockView {
        readers: v.readers.remove(id),
        writer: if v.writer == Some(id) { None } else { v.writer },
    }
}


/// Every lock operation keeps shared and exclusive locks compatible: no
/// state reachable by `shared`, `exclusive` and `release` has an exclusive
/// holder beside a shared holder of another transaction.
pub proof fn lemma_lock_operations_keep_compatibility(v: LockView, id: TransactionId)
    requires
        locks_compatible(v),
    ensures
        locks_compatible(after_shared(v, id)),
        locks_compatible(after_exclusive(v, id)),
        locks_compatible(after_release(v, id)),
{
}

/// Release frees everything: after `release(id)`, `id` holds no lock, and
/// every other transaction's locks are unchanged.
pub proof fn lemma_release_frees_only_the_releaser(v: LockView, id: TransactionId, other: TransactionId)
    requires
        other != id,
    ensures
        !after_release(v, id).readers.contains(id),
        after_release(v, id).writer != Some(id),
        after_release(v, id).readers.contains(other) == v.readers.contains(other),
        (after_release(v, id).writer == Some(other)) == (v.writer == Some(other)),
{
}

/// Shared locks are shared and exclusive locks exclusive: while another
/// transaction holds the exclusive lock no shared lock is granted, and
/// while another transaction holds any lock no exclusive lock is granted.
pub proof fn lemma_exclusive_excludes(v: LockView, holder: TransactionId, id: TransactionId)
    requires
        holder != id,
    ensures
        v.writer == Some(holder) ==> !shared_granted(v, id) && !exclusive_granted(v, id),
        v.readers.contains(holder) ==> !exclusive_granted(v, id),
        v.writer is None ==> shared_granted(v, id),
{
}

/// Shared locks accumulate: a shared request is granted exactly when no
/// other transaction holds the exclusive lock, and a granted one adds the
/// requester to the shared holders and keeps every other holder and the
/// exclusive holder; a refused one changes nothing. So once two different
/// transactions both took shared locks, neither can take the exclusive
/// lock until the other releases.
pub proof fn lemma_shared_locks_accumulate(v: LockView, id: TransactionId, other: TransactionId)
    requires
        other != id,
    ensures
        shared_granted(v, id) <==> !(v.writer matches Some(w) && w != id),
        shared_granted(v, id) ==> after_shared(v, id).readers.contains(id),
        after_shared(v, id).readers.contains(other) == v.readers.contains(other),
        after_shared(v, id).writer == v.writer,
        !shared_granted(v, id) ==> after_shared(v, id) == v,
        shared_granted(v, id) && v.readers.contains(other) ==> !exclusive_granted(
            after_shared(v, id),
            id,
        ),
        shared_granted(after_shared(v, other), id) && shared_granted(v, other) ==> {
            let w = after_shared(after_shared(v, other), id);
            &&& !exclusive_granted(w, id)
            &&& !exclusive_granted(w, other)
        },
{
    if shared_granted(after_shared(v, other), id) && shared_granted(v, other) {
        let w = after_shared(after_shared(v, other), id);
        assert(w.readers.contains(other));
        assert(w.readers.contains(id));
    }
    if shared_granted(v, id) && v.readers.contains(other) {
        assert(after_shared(v, id).readers.contains(other));
    }
}

/// The exclusive lock is granted exactly when no other transaction holds
/// any lock; a granted one makes the requester the exclusive holder and
/// keeps the shared holders; a refused one changes nothing.
pub proof fn lemma_exclusive_granted_iff_alone(v: LockView, id: TransactionId)
    ensures
        exclusive_granted(v, id) <==> (!(v.writer matches Some(w) && w != id) && forall|
            r: TransactionId,
        | #[trigger] v.readers.contains(r) ==> r == id),
        exclusive_granted(v, id) ==> after_exclusive(v, id).writer == Some(id) && after_exclusive(
            v,
            id,
        ).readers == v.readers,
        !exclusive_granted(v, id) ==> after_exclusive(v, id) == v,
{
}

/// Database-level strict S/X locking. Requests never wait: a conflicting
/// request is refused and the state is left unchanged.
pub struct LockManager {
    readers: HashSet<TransactionId>,
    writer: Option<TransactionId>,
}

impl View for LockManager {
    type V = LockView;

    closed spec fn view(&self) -> LockView {
        LockView { readers: self.readers@, writer: self.writer }
    }
}

impl LockManager {
    /// The lock table is finite and its locks are compatible.
    pub closed spec fn wf(&self) -> bool {
        &&& self.readers@.finite()
        &&& locks_compatible(self@)
    }

    /// The locks of a well-formed table are compatible.
    pub proof fn lemma_compatible(&self)
        requires
            self.wf(),
        ensures
            locks_compatible(self@),
    {
    }

    /// An empty lock table.
    pub fn new() -> (r: Self)
        ensures
            r.wf(),
            r@.readers == Set::<TransactionId>::empty(),
            r@.writer is None,
    {
        LockManager { readers: HashSet::new(), writer: None }
    }

    /// Take a shared lock for `id`; refused while another transaction
    /// holds the exclusive lock.
    pub fn shared(&mut self, id: TransactionId) -> (granted: bool)
        requires
            old(self).wf(),
        ensures
            final(self).wf(),
            granted == shared_granted(old(self)@, id),
            final(self)@ == after_shared(old(self)@, id),
    {
        if self.writer.is_some() && self.writer != Some(id) {
            return false;
        }
        self.readers.insert(id);
        true
    }

    /// Take (or upgrade to) the exclusive lock for `id`; refused while any
    /// other transaction holds a shared or the exclusive lock.
    pub fn exclusive(&mut self, id: TransactionId) -> (granted: bool)
        requires
            old(self).wf(),
        ensures
            final(self).wf(),
            granted == exclusive_granted(old(self)@, id),
            final(self)@ == after_exclusive(old(self)@, id),
    {
        if self.writer.is_some() && self.writer != Some(id) {
            return false;
        }
        let only_self = self.readers.is_empty() || (self.readers.len() == 1 && self.readers.contains(
            &id,
        ));
        proof {
            let s = self.readers@;
            if s.is_empty() {
                assert(forall|r: TransactionId| !s.contains(r));
            } else if s.len() == 1 && s.contains(id) {
                assert forall|r: TransactionId| s.contains(r) implies r == id by {
                    if r != id {
                        let t = s.remove(id);
                        assert(t.len() == 0);
                        assert(t.contains(r));
                        vstd::set_lib::lemma_set_empty_equivalency_len(t);
                    }
                }
            } else {
                if forall|r: TransactionId| s.contains(r) ==> r == id {
                    let x = s.choose();
                    assert(s.contains(x));
                    assert(s =~= set![id]);
                }
            }
        }
        if !only_self {
            return false;
        }
        self.writer = Some(id);
        true
    }

    /// Release every lock `id` holds.
    pub fn release(&mut self, id: TransactionId)
        requires
            old(self).wf(),
        ensures
            final(self).wf(),
            final(self)@ == after_release(old(self)@, id),
    {
        self.readers.remove(&id);
        if self.writer == Some(id) {
            self.writer = None;
        }
    }
}

} // verus!
