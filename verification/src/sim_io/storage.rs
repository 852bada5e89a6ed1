//! Durable storage, as seen by a node.
//!
//! The whole interface exists to make one distinction impossible to ignore:
//!
//! * a write *completing* means the bytes are in the page cache;
//! * a `sync` *completing* means the bytes will survive a power cut.
//!
//! Both are asynchronous. A node that replies to a peer before the relevant
//! sync has completed has broken Raft's persistence rule, and the crash model
//! of the disk will eventually make it pay for that.

use crate::sim_io::effect::{Effect, Environment};
use crate::simcore::disk::{FileId, IoResult, OpId};
use vstd::prelude::*;

verus! {

/// The write-ahead file. Hard state and the log share one file on purpose:
/// a single `fsync` then orders the term that authorises an entry ahead of the
/// entry itself. Two files would need two syncs, and a crash between them can
/// leave a durable log entry whose term was never durable -- which is enough to
/// elect two leaders in one term.
pub const FILE_WAL: FileId = 0;

/// Snapshots alternate between two files.
///
/// A snapshot is written whole, so writing a new one over the old one leaves a
/// window where a crash has destroyed the only copy -- and by then the log
/// prefix it replaced may already be gone. Alternating means the previous
/// snapshot is still intact until the new one is safely down.
pub const FILE_SNAPSHOT_A: FileId = 1;

pub const FILE_SNAPSHOT_B: FileId = 2;

/// Which file the snapshot with this sequence number belongs in.
pub fn snapshot_file(seq: u64) -> (r: FileId)
    ensures
        r == if seq % 2 == 0 {
            FILE_SNAPSHOT_A
        } else {
            FILE_SNAPSHOT_B
        },
{
    if seq % 2 == 0 {
        FILE_SNAPSHOT_A
    } else {
        FILE_SNAPSHOT_B
    }
}

pub trait Storage: Environment {
    /// Append to the end of the file. Returns the id of the operation whose
    /// completion event will report success or failure.
    fn append(&mut self, file: FileId, bytes: &[u8]) -> (r: OpId)
        requires
            old(self).valid(),
        ensures
            final(self).valid(),
            final(self).origin() == old(self).origin(),
            r == old(self).state().op(),
            final(self).state() == old(self).state().did(Effect::Append { file, bytes: bytes@ }),
    ;

    fn write_at(&mut self, file: FileId, offset: usize, bytes: &[u8]) -> (r: OpId)
        requires
            old(self).valid(),
        ensures
            final(self).valid(),
            final(self).origin() == old(self).origin(),
            r == old(self).state().op(),
            final(self).state() == old(self).state().did(
                Effect::WriteAt { file, offset, bytes: bytes@ },
            ),
    ;

    /// Set the file length, discarding anything beyond it.
    fn set_len(&mut self, file: FileId, len: usize) -> (r: OpId)
        requires
            old(self).valid(),
        ensures
            final(self).valid(),
            final(self).origin() == old(self).origin(),
            r == old(self).state().op(),
            final(self).state() == old(self).state().did(Effect::SetLen { file, len }),
    ;

    /// Make everything written before this call durable, once the returned
    /// operation completes.
    fn sync(&mut self, file: FileId) -> (r: OpId)
        requires
            old(self).valid(),
        ensures
            final(self).valid(),
            final(self).origin() == old(self).origin(),
            r == old(self).state().op(),
            final(self).state() == old(self).state().did(Effect::Sync { file }),
    ;

    /// Read the whole file. Synchronous, and only legitimate during recovery:
    /// a restarting node has nothing else to do while it reads its log.
    fn read_all(&self, file: FileId) -> (r: Vec<u8>)
        requires
            self.valid(),
        ensures
            r@ == self.state().file(file),
    ;

    fn size(&self, file: FileId) -> (r: usize)
        requires
            self.valid(),
        ensures
            r == self.state().file(file).len(),
    ;
}

/// Tracks operations whose completion the caller is still waiting on, and what
/// to do when they finish.
///
/// A node that simply remembers "an fsync is in flight" cannot tell *which*
/// one completed when several overlap; this keeps the association explicit.
#[derive(Debug)]
pub struct PendingOps<T> {
    ops: Vec<(OpId, T)>,
}

impl<T> View for PendingOps<T> {
    type V = Seq<(OpId, T)>;

    closed spec fn view(&self) -> Seq<(OpId, T)> {
        self.ops@
    }
}

/// Where the first entry for an operation stands, from place `i` on.
pub open spec fn op_place<T>(ops: Seq<(OpId, T)>, op: OpId, i: int) -> Option<int>
    decreases ops.len() - i,
{
    if i >= ops.len() {
        None
    } else if ops[i].0 == op {
        Some(i)
    } else {
        op_place(ops, op, i + 1)
    }
}

/// What is associated with an operation, and what is left once it is taken.
pub open spec fn op_taken<T>(ops: Seq<(OpId, T)>, op: OpId) -> (Option<T>, Seq<(OpId, T)>) {
    match op_place(ops, op, 0) {
        Some(i) => (Some(ops[i].1), ops.remove(i)),
        None => (None, ops),
    }
}

impl<T> Default for PendingOps<T> {
    fn default() -> (r: PendingOps<T>)
        ensures
            r@ == Seq::<(OpId, T)>::empty(),
    {
        PendingOps { ops: Vec::new() }
    }
}

impl<T> PendingOps<T> {
    pub fn new() -> (r: Self)
        ensures
            r@ == Seq::<(OpId, T)>::empty(),
    {
        PendingOps { ops: Vec::new() }
    }

    pub fn insert(&mut self, op: OpId, value: T)
        ensures
            final(self)@ == old(self)@.push((op, value)),
    {
        self.ops.push((op, value));
    }

    /// Take the action associated with a completed operation, if any.
    pub fn take(&mut self, op: OpId) -> (r: Option<T>)
        ensures
            (r, final(self)@) == op_taken(old(self)@, op),
    {
        let mut i: usize = 0;
        while i < self.ops.len()
            invariant
                i <= self.ops@.len(),
                self.ops == old(self).ops,
                op_place(self.ops@, op, 0) == op_place(self.ops@, op, i as int),
            decreases self.ops@.len() - i,
        {
            if self.ops[i].0 == op {
                let (_, value) = self.ops.remove(i);
                return Some(value);
            }
            i += 1;
        }
        None
    }

    pub fn is_empty(&self) -> (r: bool)
        ensures
            r == (self@.len() == 0),
    {
        self.ops.is_empty()
    }

    pub fn len(&self) -> (r: usize)
        ensures
            r == self@.len(),
    {
        self.ops.len()
    }

    /// Drop everything: used when a node restarts, since in-flight operations
    /// from the previous incarnation will never complete.
    pub fn clear(&mut self)
        ensures
            final(self)@ == Seq::<(OpId, T)>::empty(),
    {
        self.ops.clear();
    }

    /// What is still pending, oldest first.
    pub fn iter(&self) -> (r: &[(OpId, T)])
        ensures
            r@ == self@,
    {
        self.ops.as_slice()
    }
}

proof fn lemma_op_place<T>(ops: Seq<(OpId, T)>, op: OpId, i: int)
    requires
        0 <= i,
    ensures
        match op_place(ops, op, i) {
            Some(p) => i <= p < ops.len() && ops[p].0 == op,
            None => forall|j: int| i <= j < ops.len() ==> (#[trigger] ops[j]).0 != op,
        },
    decreases ops.len() - i,
{
    if i < ops.len() && ops[i].0 != op {
        lemma_op_place(ops, op, i + 1);
    }
}

/// An operation completes at most once: where ids are distinct, nothing is
/// associated with an operation after its entry was taken, and every other
/// entry is still there.
pub proof fn law_op_completes_once<T>(ops: Seq<(OpId, T)>, op: OpId)
    requires
        forall|i: int, j: int| 0 <= i < j < ops.len() ==> (#[trigger] ops[i]).0 != (
        #[trigger] ops[j]).0,
    ensures
        op_taken(op_taken(ops, op).1, op).0 is None,
        forall|i: int|
            0 <= i < ops.len() && (#[trigger] ops[i]).0 != op ==> op_taken(ops, op).1.contains(
                ops[i],
            ),
{
    lemma_op_place(ops, op, 0);
    let rest = op_taken(ops, op).1;
    lemma_op_place(rest, op, 0);
    if let Some(p) = op_place(ops, op, 0) {
        assert forall|j: int| 0 <= j < rest.len() implies (#[trigger] rest[j]).0 != op by {
            let k = if j < p {
                j
            } else {
                j + 1
            };
            assert(rest[j] == ops[k]);
            if k < p {
                assert(ops[k].0 != ops[p].0);
            } else {
                assert(ops[p].0 != ops[k].0);
            }
        }
        assert forall|i: int| 0 <= i < ops.len() && (#[trigger] ops[i]).0 != op implies rest.contains(
            ops[i],
        ) by {
            let j = if i < p {
                i
            } else {
                i - 1
            };
            assert(rest[j] == ops[i]);
        }
    } else {
        assert forall|i: int| 0 <= i < ops.len() && (#[trigger] ops[i]).0 != op implies rest.contains(
            ops[i],
        ) by {
            assert(rest[i] == ops[i]);
        }
    }
}

/// Outcome of a storage completion, as handed to the application.
#[derive(Clone, Copy, Debug, PartialEq, Eq)]
pub struct Completion {
    pub op: OpId,
    pub result: IoResult,
}

impl Completion {
    pub fn ok(&self) -> (r: bool)
        ensures
            r == (self.result == IoResult::Done),
    {
        self.result.is_ok()
    }
}

} // verus!
