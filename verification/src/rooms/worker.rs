//! The persistence pipeline of one live room.
//!
//! A worker consumes update blobs captured from the live document, appends
//! each to the durable log, and, every `snapshot_every` successfully
//! appended updates, stores a snapshot of the full live document state
//! covering the log up to the last appended entry.  Persistence failures are
//! absorbed: the live document stays authoritative and the update is lost
//! from the durable log (at-most-once persistence).

use vstd::prelude::*;

use crate::rooms::doc::{state_update_of, ReplicaDoc};
use crate::rooms::error::Error;
use crate::rooms::storage::{
    append_model, backend_failure, store_snapshot_model, LogSeq, Snapshot, Storage, MAX_SEQ,
};

verus! {

/// What feeding one update through the persistence protocol did.
pub enum PersistStep {
    /// The append failed with the carried storage error; the update is
    /// absent from the durable log and the worker state is unchanged.
    AppendFailed(Error),
    /// The update was appended; no snapshot was due.
    Appended,
    /// The update was appended and a snapshot covering it was stored.
    Snapshotted,
    /// The update was appended and a snapshot was due, but none could be
    /// stored — the store refused it, or the live replica was tainted and
    /// cannot be encoded; the snapshot is retried at the next threshold.
    SnapshotFailed,
}

/// Per-live-room persistence state.
///
/// `since_snapshot` counts successful appends since the last stored
/// snapshot; only its comparison against `snapshot_every` matters, so it is
/// capped there instead of growing without bound.
pub struct PersistenceWorker {
    pub since_snapshot: u64,
    pub last_seq: LogSeq,
    pub snapshot_every: u64,
}

impl PersistenceWorker {
    /// A fresh worker, spawned when its room is materialized.
    pub fn new(snapshot_every: u64) -> (r: Self)
        ensures
            r.since_snapshot == 0,
            r.last_seq == 0,
            r.snapshot_every == snapshot_every,
    {
        PersistenceWorker { since_snapshot: 0, last_seq: 0, snapshot_every }
    }

    /// Whether the counter, after one more successful append, reaches the
    /// snapshot cadence.
    pub open spec fn snapshot_due(self) -> bool {
        self.since_snapshot + 1 >= self.snapshot_every
    }

    /// The capped successor of `since_snapshot`.
    pub open spec fn bumped(self) -> u64 {
        if self.since_snapshot < self.snapshot_every {
            (self.since_snapshot + 1) as u64
        } else {
            self.since_snapshot
        }
    }

    /// Feeds one captured update through the persistence protocol: append
    /// it to the log; on success, when the cadence is reached, encode the
    /// full live document state and store it as a snapshot covering the
    /// appended entry.
    pub fn process_update<S: Storage>(
        &mut self,
        storage: &mut S,
        room_id: &str,
        doc: &ReplicaDoc,
        bytes: &[u8],
    ) -> (step: PersistStep)
        requires
            old(storage).wf(),
        ensures
            final(storage).wf(),
            final(self).snapshot_every == old(self).snapshot_every,
            forall|k: Seq<char>|
                k != room_id@ ==> #[trigger] final(storage).model().contains_key(k) == old(
                    storage,
                ).model().contains_key(k) && (old(storage).model().contains_key(k)
                    ==> final(storage).model()[k] == old(storage).model()[k]),
            final(storage).model().contains_key(room_id@) == old(storage).model().contains_key(
                room_id@,
            ),
            match step {
                PersistStep::AppendFailed(e) => {
                    &&& final(storage).model() == old(storage).model()
                    &&& *final(self) == *old(self)
                    &&& e is NotFound || e is InvalidArgument || backend_failure(e)
                    &&& e is NotFound ==> !old(storage).model().contains_key(room_id@)
                    &&& e is InvalidArgument ==> old(storage).model().contains_key(room_id@) && old(
                        storage,
                    ).model()[room_id@].next_seq() > MAX_SEQ
                },
                PersistStep::Appended => {
                    &&& old(storage).model().contains_key(room_id@)
                    &&& !old(self).snapshot_due()
                    &&& final(self).last_seq == old(storage).model()[room_id@].next_seq()
                    &&& final(self).since_snapshot == old(self).bumped()
                    &&& final(storage).model() == old(storage).model().insert(
                        room_id@,
                        append_model(old(storage).model()[room_id@], seq![bytes@]),
                    )
                },
                PersistStep::Snapshotted => {
                    &&& old(storage).model().contains_key(room_id@)
                    &&& old(self).snapshot_due()
                    &&& doc.is_clean()
                    &&& final(self).last_seq == old(storage).model()[room_id@].next_seq()
                    &&& final(self).since_snapshot == 0
                    &&& final(storage).model() == old(storage).model().insert(
                        room_id@,
                        store_snapshot_model(
                            append_model(old(storage).model()[room_id@], seq![bytes@]),
                            final(self).last_seq,
                            state_update_of(doc@),
                        ),
                    )
                },
                PersistStep::SnapshotFailed => {
                    &&& old(storage).model().contains_key(room_id@)
                    &&& old(self).snapshot_due()
                    &&& final(self).last_seq == old(storage).model()[room_id@].next_seq()
                    &&& final(self).since_snapshot == old(self).bumped()
                    &&& final(storage).model() == old(storage).model().insert(
                        room_id@,
                        append_model(old(storage).model()[room_id@], seq![bytes@]),
                    )
                },
            },
    {
        match storage.append_update(room_id, bytes) {
            Ok(seq) => {
                self.last_seq = seq;
                if self.since_snapshot < self.snapshot_every {
                    self.since_snapshot = self.since_snapshot + 1;
                }
                if self.since_snapshot >= self.snapshot_every {
                    if doc.clean() {
                        let snap_bytes = doc.encode_state();
                        let snap = Snapshot { covered_through: seq, bytes: snap_bytes };
                        match storage.store_snapshot(room_id, snap) {
                            Ok(()) => {
                                self.since_snapshot = 0;
                                PersistStep::Snapshotted
                            },
                            Err(_) => PersistStep::SnapshotFailed,
                        }
                    } else {
                        PersistStep::SnapshotFailed
                    }
                } else {
                    PersistStep::Appended
                }
            },
            Err(e) => PersistStep::AppendFailed(e),
        }
    }
}

} // verus!
