//! The storage abstraction: a durable, ordered per-room update log and
//! snapshot store.
//!
//! A room at rest is a tuple `(room_id, last_seq)` plus two associated
//! collections: the update log (entries numbered `1..=last_seq`, no gaps, no
//! duplicates) and the snapshot set (at most one snapshot per
//! `covered_through`).  [`RoomModel`] is the mathematical shape of one room;
//! a whole store is a map from room identifier to [`RoomModel`].

use vstd::prelude::*;

use crate::rooms::error::Error;

verus! {

/// Monotonically increasing positive sequence number assigned by storage at
/// append time.  `0` denotes "no updates" and is the implicit baseline for an
/// empty room.
pub type LogSeq = u64;

/// Largest sequence number the store will assign: sequence numbers must stay
/// positive 64-bit signed integers.
pub const MAX_SEQ: LogSeq = 0x7fff_ffff_ffff_ffff;

/// One entry of a room's update log.
#[derive(Debug)]
pub struct UpdateEntry {
    pub seq: LogSeq,
    pub bytes: Vec<u8>,
}

/// A byte-encoded full state of a document.  Applying `bytes` to an empty doc
/// yields a state equivalent to applying, in order, all updates with
/// `seq <= covered_through`; `covered_through = 0` means "empty doc".
#[derive(Debug)]
pub struct Snapshot {
    pub covered_through: LogSeq,
    pub bytes: Vec<u8>,
}

/// Snapshot metadata returned for listings without the payload.
#[derive(Clone, Copy, Debug)]
pub struct SnapshotInfo {
    pub covered_through: LogSeq,
    pub size_bytes: u64,
}

/// Cheap per-room summary.
#[derive(Debug)]
pub struct RoomInfo {
    pub room_id: String,
    pub last_seq: LogSeq,
    pub latest_snapshot: Option<SnapshotInfo>,
}

/// Options for [`Storage::create_room`].
pub struct CreateRoomOptions {
    pub fail_if_exists: bool,
}

impl Default for CreateRoomOptions {
    fn default() -> (r: Self)
        ensures
            !r.fail_if_exists,
    {
        CreateRoomOptions { fail_if_exists: false }
    }
}

/// Inclusive range options for [`Storage::load_updates`]; `from` defaults to
/// the start of the log and `to` to its end.
pub struct LoadUpdatesOptions {
    pub from: Option<LogSeq>,
    pub to: Option<LogSeq>,
}

impl Default for LoadUpdatesOptions {
    fn default() -> (r: Self)
        ensures
            r.from is None,
            r.to is None,
    {
        LoadUpdatesOptions { from: None, to: None }
    }
}

/// Mathematical model of one room at rest.  `updates[i]` is the payload of
/// the entry with sequence number `i + 1`, so the log's sequence numbers are
/// exactly `{1, ..., updates.len()}` with no gaps and no duplicates.
#[verifier::ext_equal]
pub ghost struct RoomModel {
    pub updates: Seq<Seq<u8>>,
    pub snapshots: Map<LogSeq, Seq<u8>>,
}

impl RoomModel {
    /// A freshly created room: no updates, no snapshots.
    pub open spec fn empty() -> Self {
        RoomModel { updates: Seq::empty(), snapshots: Map::empty() }
    }

    /// The room's `last_seq`.
    pub open spec fn last_seq(self) -> int {
        self.updates.len() as int
    }

    /// The sequence number the next successful append will be assigned.
    pub open spec fn next_seq(self) -> int {
        self.updates.len() + 1int
    }

    /// The payload of the log entry with sequence number `s`.
    pub open spec fn update_at(self, s: int) -> Seq<u8>
        recommends
            1 <= s <= self.updates.len(),
    {
        self.updates[s - 1]
    }

    /// `k` is the covered-through value of a stored snapshot, and lies within
    /// the optional upper bound.
    pub open spec fn snapshot_within(self, k: LogSeq, max: Option<LogSeq>) -> bool {
        self.snapshots.dom().contains(k) && (match max {
            Some(m) => k <= m,
            None => true,
        })
    }

    /// `k` is the greatest covered-through value within the bound.
    pub open spec fn is_best_snapshot(self, k: LogSeq, max: Option<LogSeq>) -> bool {
        self.snapshot_within(k, max) && (forall|j: LogSeq|
            self.snapshot_within(j, max) ==> j <= k)
    }
}

/// A whole store: room identifier to room model.
pub type StoreModel = Map<Seq<char>, RoomModel>;

/// Effect of `create_room` on the store: idempotent unless the room exists.
pub open spec fn create_room_model(m: StoreModel, id: Seq<char>) -> StoreModel {
    if m.contains_key(id) {
        m
    } else {
        m.insert(id, RoomModel::empty())
    }
}

/// Effect of appending `items`, in caller order, to a room's log.
pub open spec fn append_model(rm: RoomModel, items: Seq<Seq<u8>>) -> RoomModel {
    RoomModel { updates: rm.updates + items, snapshots: rm.snapshots }
}

/// Effect of `store_snapshot`: an upsert on `covered_through`.
pub open spec fn store_snapshot_model(rm: RoomModel, k: LogSeq, bytes: Seq<u8>) -> RoomModel {
    RoomModel { updates: rm.updates, snapshots: rm.snapshots.insert(k, bytes) }
}

/// The effective inclusive lower bound of a load range (sequence numbers
/// start at 1).
pub open spec fn range_lo(opts: LoadUpdatesOptions) -> int {
    match opts.from {
        Some(f) => if f < 1 {
            1
        } else {
            f as int
        },
        None => 1,
    }
}

/// The effective inclusive upper bound of a load range, clipped to the log's
/// end.
pub open spec fn range_hi(opts: LoadUpdatesOptions, last: int) -> int {
    match opts.to {
        Some(t) => if t as int <= last {
            t as int
        } else {
            last
        },
        None => last,
    }
}

/// The payloads a load over `[lo, hi]` returns, in ascending sequence order.
pub open spec fn loaded_bytes(rm: RoomModel, lo: int, hi: int) -> Seq<Seq<u8>> {
    if lo <= hi {
        Seq::new((hi - lo + 1) as nat, |j: int| rm.update_at(lo + j))
    } else {
        Seq::empty()
    }
}

/// `info` reports `k` as a snapshot of `rm`, with the payload's size.
pub open spec fn snapshot_info_matches(rm: RoomModel, k: LogSeq, info: SnapshotInfo) -> bool {
    &&& info.covered_through == k
    &&& rm.snapshots.dom().contains(k)
    &&& info.size_bytes == rm.snapshots[k].len()
}

/// `info` is a correct summary of the room `id` with model `rm`.
pub open spec fn room_info_matches(id: Seq<char>, rm: RoomModel, info: RoomInfo) -> bool {
    &&& info.room_id@ == id
    &&& info.last_seq == rm.last_seq()
    &&& match info.latest_snapshot {
        Some(si) => rm.is_best_snapshot(si.covered_through, None) && snapshot_info_matches(
            rm,
            si.covered_through,
            si,
        ),
        None => rm.snapshots.dom() =~= Set::empty(),
    }
}

/// `v` lists exactly the snapshots of `rm`, ascending by `covered_through`,
/// each with its payload size.
pub open spec fn snapshot_listing_matches(rm: RoomModel, v: Seq<SnapshotInfo>) -> bool {
    &&& forall|i: int|
        0 <= i < v.len() ==> snapshot_info_matches(rm, (#[trigger] v[i]).covered_through, v[i])
    &&& forall|k: LogSeq|
        rm.snapshots.dom().contains(k) ==> exists|i: int|
            0 <= i < v.len() && (#[trigger] v[i]).covered_through == k
    &&& forall|i: int, j: int|
        #![trigger v[i], v[j]]
        0 <= i < j < v.len() ==> v[i].covered_through < v[j].covered_through
}

/// `v` lists exactly the rooms of `m`, one entry per room, each a correct
/// summary.
pub open spec fn room_listing_matches(m: StoreModel, v: Seq<RoomInfo>) -> bool {
    &&& forall|i: int|
        0 <= i < v.len() ==> m.contains_key((#[trigger] v[i]).room_id@) && room_info_matches(
            v[i].room_id@,
            m[v[i].room_id@],
            v[i],
        )
    &&& forall|k: Seq<char>|
        m.contains_key(k) ==> exists|i: int| 0 <= i < v.len() && (#[trigger] v[i]).room_id@ == k
    &&& forall|i: int, j: int|
        #![trigger v[i], v[j]]
        0 <= i < j < v.len() ==> v[i].room_id@ != v[j].room_id@
}

/// A driver-level failure: the error wraps an underlying cause rather than
/// describing a rule of the interface.
pub open spec fn backend_failure(e: Error) -> bool {
    e is Backend || e is StorageError
}

/// Durable, ordered per-room update log and snapshot store.
///
/// Its two implementations — in-memory and relational-database-backed —
/// must behave identically modulo latency; the contracts below are that
/// common behaviour.  Any method may fail with a
/// driver-level error ([`backend_failure`]), in which case the store is
/// unchanged; everything else is pinned down exactly.
pub trait Storage: Sized {
    /// The rooms at rest.
    spec fn model(&self) -> StoreModel;

    /// Well-formedness of the store's in-memory representation; constructors
    /// establish it and every operation preserves it.
    spec fn wf(&self) -> bool;

    /// In a well-formed store every room's log is bounded by the largest
    /// assignable sequence number.
    proof fn wf_bounded(&self)
        requires
            self.wf(),
        ensures
            forall|k: Seq<char>|
                self.model().contains_key(k) ==> (#[trigger] self.model()[k]).updates.len()
                    <= MAX_SEQ,
    ;

    fn room_exists(&self, room_id: &str) -> (r: Result<bool, Error>)
        requires
            self.wf(),
        ensures
            match r {
                Ok(b) => b == self.model().contains_key(room_id@),
                Err(e) => backend_failure(e),
            },
    ;

    /// Creates a room at rest; idempotent unless `fail_if_exists`, in which
    /// case a second creation fails with `AlreadyExists`.
    fn create_room(&mut self, room_id: &str, opts: CreateRoomOptions) -> (r: Result<(), Error>)
        requires
            old(self).wf(),
        ensures
            final(self).wf(),
            match r {
                Ok(()) => {
                    &&& final(self).model() == create_room_model(old(self).model(), room_id@)
                    &&& old(self).model().contains_key(room_id@) ==> !opts.fail_if_exists
                },
                Err(e) => {
                    &&& final(self).model() == old(self).model()
                    &&& e is AlreadyExists || backend_failure(e)
                    &&& e is AlreadyExists ==> old(self).model().contains_key(room_id@)
                        && opts.fail_if_exists
                },
            },
    ;

    /// Removes the room, all its updates and all its snapshots.
    fn delete_room(&mut self, room_id: &str) -> (r: Result<(), Error>)
        requires
            old(self).wf(),
        ensures
            final(self).wf(),
            match r {
                Ok(()) => final(self).model() == old(self).model().remove(room_id@),
                Err(e) => final(self).model() == old(self).model() && backend_failure(e),
            },
    ;

    fn list_rooms(&self) -> (r: Result<Vec<RoomInfo>, Error>)
        requires
            self.wf(),
        ensures
            match r {
                Ok(v) => room_listing_matches(self.model(), v@),
                Err(e) => backend_failure(e),
            },
    ;

    fn get_room_info(&self, room_id: &str) -> (r: Result<Option<RoomInfo>, Error>)
        requires
            self.wf(),
        ensures
            match r {
                Ok(opt) => match opt {
                    Some(info) => self.model().contains_key(room_id@) && room_info_matches(
                        room_id@,
                        self.model()[room_id@],
                        info,
                    ),
                    None => !self.model().contains_key(room_id@),
                },
                Err(e) => backend_failure(e),
            },
    ;

    /// Appends one update; linearizable per room, so callers observe
    /// distinct, contiguous sequence numbers with no gaps.
    fn append_update(&mut self, room_id: &str, update: &[u8]) -> (r: Result<LogSeq, Error>)
        requires
            old(self).wf(),
        ensures
            final(self).wf(),
            match r {
                Ok(seq) => {
                    &&& old(self).model().contains_key(room_id@)
                    &&& seq == old(self).model()[room_id@].next_seq()
                    &&& seq <= MAX_SEQ
                    &&& final(self).model() == old(self).model().insert(
                        room_id@,
                        append_model(old(self).model()[room_id@], seq![update@]),
                    )
                },
                Err(e) => {
                    &&& final(self).model() == old(self).model()
                    &&& e is NotFound || e is InvalidArgument || backend_failure(e)
                    &&& e is NotFound ==> !old(self).model().contains_key(room_id@)
                    &&& e is InvalidArgument ==> old(self).model().contains_key(room_id@)
                        && old(self).model()[room_id@].next_seq() > MAX_SEQ
                },
            },
    ;

    /// Appends a batch atomically: either all entries become visible with
    /// contiguous sequence numbers, in caller order, or none do.  An empty
    /// batch fails with `InvalidArgument`.
    fn append_updates(&mut self, room_id: &str, updates: &[Vec<u8>]) -> (r: Result<
        (LogSeq, LogSeq),
        Error,
    >)
        requires
            old(self).wf(),
        ensures
            final(self).wf(),
            match r {
                Ok((first, last)) => {
                    &&& old(self).model().contains_key(room_id@)
                    &&& updates@.len() > 0
                    &&& first == old(self).model()[room_id@].next_seq()
                    &&& last == first + updates@.len() - 1
                    &&& last <= MAX_SEQ
                    &&& final(self).model() == old(self).model().insert(
                        room_id@,
                        append_model(old(self).model()[room_id@], updates.deep_view()),
                    )
                },
                Err(e) => {
                    &&& final(self).model() == old(self).model()
                    &&& e is NotFound || e is InvalidArgument || backend_failure(e)
                    &&& e is NotFound ==> !old(self).model().contains_key(room_id@)
                    &&& e is InvalidArgument ==> updates@.len() == 0 || (old(
                        self,
                    ).model().contains_key(room_id@) && old(self).model()[room_id@].last_seq()
                        + updates@.len() > MAX_SEQ)
                },
            },
    ;

    /// Loads the inclusive range of log entries selected by `opts`, strictly
    /// ascending by sequence number.
    fn load_updates(&self, room_id: &str, opts: LoadUpdatesOptions) -> (r: Result<
        Vec<UpdateEntry>,
        Error,
    >)
        requires
            self.wf(),
        ensures
            match r {
                Ok(v) => {
                    let rm = self.model()[room_id@];
                    let lo = range_lo(opts);
                    let hi = range_hi(opts, rm.last_seq());
                    &&& self.model().contains_key(room_id@)
                    &&& v@.len() == loaded_bytes(rm, lo, hi).len()
                    &&& forall|j: int|
                        0 <= j < v@.len() ==> (#[trigger] v@[j].seq) == lo + j && v@[j].bytes@
                            == rm.update_at(lo + j)
                },
                Err(e) => {
                    &&& e is NotFound || backend_failure(e)
                    &&& e is NotFound ==> !self.model().contains_key(room_id@)
                },
            },
    ;

    /// Upserts a snapshot keyed by its `covered_through`.
    fn store_snapshot(&mut self, room_id: &str, snapshot: Snapshot) -> (r: Result<(), Error>)
        requires
            old(self).wf(),
        ensures
            final(self).wf(),
            match r {
                Ok(()) => {
                    &&& old(self).model().contains_key(room_id@)
                    &&& final(self).model() == old(self).model().insert(
                        room_id@,
                        store_snapshot_model(
                            old(self).model()[room_id@],
                            snapshot.covered_through,
                            snapshot.bytes@,
                        ),
                    )
                },
                Err(e) => {
                    &&& final(self).model() == old(self).model()
                    &&& e is NotFound || backend_failure(e)
                    &&& e is NotFound ==> !old(self).model().contains_key(room_id@)
                },
            },
    ;

    /// Loads the snapshot with exactly this `covered_through`, if any.
    fn load_snapshot_at(&self, room_id: &str, covered_through: LogSeq) -> (r: Result<
        Option<Snapshot>,
        Error,
    >)
        requires
            self.wf(),
        ensures
            match r {
                Ok(opt) => {
                    let rm = self.model()[room_id@];
                    &&& self.model().contains_key(room_id@)
                    &&& match opt {
                        Some(s) => rm.snapshots.dom().contains(covered_through)
                            && s.covered_through == covered_through && s.bytes@
                            == rm.snapshots[covered_through],
                        None => !rm.snapshots.dom().contains(covered_through),
                    }
                },
                Err(e) => {
                    &&& e is NotFound || backend_failure(e)
                    &&& e is NotFound ==> !self.model().contains_key(room_id@)
                },
            },
    ;

    /// Loads the snapshot with the greatest `covered_through` within the
    /// optional upper bound, or `None` if no snapshot lies within it.
    fn load_snapshot_best(&self, room_id: &str, max_covered_through: Option<LogSeq>) -> (r: Result<
        Option<Snapshot>,
        Error,
    >)
        requires
            self.wf(),
        ensures
            match r {
                Ok(opt) => {
                    let rm = self.model()[room_id@];
                    &&& self.model().contains_key(room_id@)
                    &&& match opt {
                        Some(s) => rm.is_best_snapshot(s.covered_through, max_covered_through)
                            && s.bytes@ == rm.snapshots[s.covered_through],
                        None => forall|k: LogSeq| !rm.snapshot_within(k, max_covered_through),
                    }
                },
                Err(e) => {
                    &&& e is NotFound || backend_failure(e)
                    &&& e is NotFound ==> !self.model().contains_key(room_id@)
                },
            },
    ;

    /// Lists snapshot metadata, ascending by `covered_through`.
    fn list_snapshots(&self, room_id: &str) -> (r: Result<Vec<SnapshotInfo>, Error>)
        requires
            self.wf(),
        ensures
            match r {
                Ok(v) => self.model().contains_key(room_id@) && snapshot_listing_matches(
                    self.model()[room_id@],
                    v@,
                ),
                Err(e) => {
                    &&& e is NotFound || backend_failure(e)
                    &&& e is NotFound ==> !self.model().contains_key(room_id@)
                },
            },
    ;
}

} // verus!

use vstd::prelude::*;

verus! {

/// Sequence numbers are assigned contiguously and monotonically: the
/// `i`-th append of a batch onto a room whose log holds `last_seq` entries
/// is assigned `last_seq + i + 1`, so over any sequence of appends the
/// returned values form a contiguous prefix of the positive integers past
/// the starting point, with no duplicates.
pub proof fn lemma_append_seqs_contiguous(rm: RoomModel, items: Seq<Seq<u8>>, i: int)
    requires
        0 <= i < items.len(),
    ensures
        append_model(rm, items.take(i)).next_seq() == rm.last_seq() + i + 1,
        append_model(rm, items.take(i + 1)).last_seq() == rm.last_seq() + i + 1,
{
    assert(items.take(i).len() == i);
    assert(items.take(i + 1).len() == i + 1);
}

/// Appending a batch of `n` items to a room with `last_seq = L` makes the
/// range `(L + 1, L + n)` loadable, and loading it returns exactly the
/// batch, in caller order.
pub proof fn lemma_batch_load_roundtrip(rm: RoomModel, items: Seq<Seq<u8>>)
    ensures
        loaded_bytes(append_model(rm, items), rm.next_seq(), rm.last_seq() + items.len())
            =~= items,
{
}

/// Within any bound there is at most one best snapshot: `covered_through`
/// is unique per room.
pub proof fn lemma_best_snapshot_unique(
    rm: RoomModel,
    max: Option<LogSeq>,
    k1: LogSeq,
    k2: LogSeq,
)
    requires
        rm.is_best_snapshot(k1, max),
        rm.is_best_snapshot(k2, max),
    ensures
        k1 == k2,
{
}

/// `create_room` without `fail_if_exists` is idempotent: creating a room a
/// second time leaves the store exactly as after the first creation.
pub proof fn lemma_create_room_idempotent(m: StoreModel, id: Seq<char>)
    ensures
        create_room_model(create_room_model(m, id), id) == create_room_model(m, id),
{
    assert(create_room_model(m, id).contains_key(id));
}

/// `store_snapshot` with the same `covered_through` is idempotent up to
/// payload replacement: only the last stored payload stands.
pub proof fn lemma_store_snapshot_idempotent(rm: RoomModel, k: LogSeq, b1: Seq<u8>, b2: Seq<u8>)
    ensures
        store_snapshot_model(store_snapshot_model(rm, k, b1), k, b2) =~= store_snapshot_model(
            rm,
            k,
            b2,
        ),
{
    assert(rm.snapshots.insert(k, b1).insert(k, b2) =~= rm.snapshots.insert(k, b2));
}

} // verus!
