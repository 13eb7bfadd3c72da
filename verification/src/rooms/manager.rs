//! Room admission, lazy materialization and eviction.
//!
//! The manager owns the storage handle and the map of live rooms.  A live
//! room is materialized on the first connection: the best snapshot is
//! applied to an empty replica, followed, in order, by every logged update
//! past the point the snapshot covers.  The room is evicted when its last
//! connection leaves, after draining its persistence queue.

use vstd::prelude::*;

use crate::rooms::doc::{decodes_v1, state_update_of, ReplicaDoc};
use crate::rooms::error::Error;
use crate::rooms::storage::{
    backend_failure, CreateRoomOptions, LoadUpdatesOptions, LogSeq, RoomModel, Storage, StoreModel,
    MAX_SEQ,
};
use crate::rooms::worker::{PersistStep, PersistenceWorker};
use crate::text::{clone_bytes, str_eq};

verus! {

/// The update blobs a materialization applies to an empty replica: the best
/// snapshot's payload, if any snapshot exists, followed by the log entries
/// past the point it covers (a snapshot covering beyond the log's end
/// contributes no further entries).
pub open spec fn materialized_updates(rm: RoomModel) -> Seq<Seq<u8>> {
    if exists|k: LogSeq| rm.is_best_snapshot(k, None) {
        let k = choose|k: LogSeq| rm.is_best_snapshot(k, None);
        let skip = if k as int <= rm.updates.len() {
            k as int
        } else {
            rm.updates.len() as int
        };
        seq![rm.snapshots[k]] + rm.updates.skip(skip)
    } else {
        rm.updates
    }
}

/// A materialized room: the live document replica and the count of active
/// connections.
pub struct LiveRoom {
    doc: ReplicaDoc,
    conn_count: usize,
}

impl LiveRoom {
    /// The sequence of update blobs applied to the live replica.
    pub closed spec fn doc_model(self) -> Seq<Seq<u8>> {
        self.doc@
    }

    /// The number of active connections.
    pub closed spec fn connections(self) -> int {
        self.conn_count as int
    }

    pub closed spec fn wf(self) -> bool {
        self.doc.wf()
    }

    /// Whether the live replica is still exactly its modelled blobs'
    /// result; a rejected integration clears this for good.
    pub closed spec fn clean(self) -> bool {
        self.doc.is_clean()
    }

    /// The number of active connections.
    pub fn connection_count(&self) -> (r: usize)
        ensures
            r == self.connections(),
    {
        self.conn_count
    }

    /// The number of update blobs applied to the live replica.
    pub fn doc_update_count(&self) -> (r: u64)
        requires
            self.wf(),
        ensures
            r == self.doc_model().len(),
    {
        self.doc.update_count()
    }

    /// Whether the live replica can still be encoded.
    pub fn doc_is_clean(&self) -> (r: bool)
        ensures
            r == self.clean(),
    {
        self.doc.clean()
    }

    /// Encodes the live replica's full state as one update blob.
    pub fn encode_doc_state(&self) -> (r: Vec<u8>)
        requires
            self.clean(),
        ensures
            r@ == state_update_of(self.doc_model()),
    {
        self.doc.encode_state()
    }

    fn inc(&mut self)
        requires
            old(self).connections() < usize::MAX,
        ensures
            final(self).connections() == old(self).connections() + 1,
            final(self).doc_model() == old(self).doc_model(),
            final(self).wf() == old(self).wf(),
            final(self).clean() == old(self).clean(),
    {
        self.conn_count = self.conn_count + 1;
    }

    fn dec(&mut self) -> (r: usize)
        requires
            old(self).connections() >= 1,
        ensures
            final(self).connections() == old(self).connections() - 1,
            r == final(self).connections(),
            final(self).doc_model() == old(self).doc_model(),
            final(self).wf() == old(self).wf(),
            final(self).clean() == old(self).clean(),
    {
        self.conn_count = self.conn_count - 1;
        self.conn_count
    }
}

/// One live room with its persistence pipeline: the bounded queue of
/// captured updates and the worker that drains it into storage.
struct LiveEntry {
    room_id: String,
    room: LiveRoom,
    worker: PersistenceWorker,
    queue: Vec<Vec<u8>>,
}

spec fn live_ids_distinct(s: Seq<LiveEntry>) -> bool {
    forall|i: int, j: int|
        #![trigger s[i], s[j]]
        0 <= i < j < s.len() ==> s[i].room_id@ != s[j].room_id@
}

spec fn live_has(s: Seq<LiveEntry>, k: Seq<char>) -> bool {
    exists|i: int| 0 <= i < s.len() && (#[trigger] s[i]).room_id@ == k
}

spec fn live_index(s: Seq<LiveEntry>, k: Seq<char>) -> int {
    choose|i: int| 0 <= i < s.len() && (#[trigger] s[i]).room_id@ == k
}

proof fn lemma_live_index_unique(s: Seq<LiveEntry>, k: Seq<char>)
    requires
        live_ids_distinct(s),
        live_has(s, k),
    ensures
        0 <= live_index(s, k) < s.len(),
        s[live_index(s, k)].room_id@ == k,
        forall|i: int|
            0 <= i < s.len() && (#[trigger] s[i]).room_id@ == k ==> i == live_index(s, k),
{
    let idx = live_index(s, k);
    assert(0 <= idx < s.len() && s[idx].room_id@ == k);
    assert forall|i: int| 0 <= i < s.len() && (#[trigger] s[i]).room_id@ == k implies i == idx by {
        if i < idx {
            assert(s[i].room_id@ != s[idx].room_id@);
        } else if idx < i {
            assert(s[idx].room_id@ != s[i].room_id@);
        }
    }
}

/// Replacing the entry at index `i` by one with the same identifier leaves
/// every other identifier's entry, and every lookup index, in place.
proof fn lemma_live_update(s: Seq<LiveEntry>, i: int, e: LiveEntry)
    requires
        live_ids_distinct(s),
        0 <= i < s.len(),
        e.room_id@ == s[i].room_id@,
    ensures
        live_ids_distinct(s.update(i, e)),
        forall|k: Seq<char>| #[trigger] live_has(s.update(i, e), k) == live_has(s, k),
        forall|k: Seq<char>|
            live_has(s, k) ==> #[trigger] live_index(s.update(i, e), k) == live_index(s, k),
        live_has(s, e.room_id@) && live_index(s, e.room_id@) == i,
{
    let t = s.update(i, e);
    assert forall|p: int, q: int|
        #![trigger t[p], t[q]]
        0 <= p < q < t.len() implies t[p].room_id@ != t[q].room_id@ by {
        assert(t[p].room_id@ == s[p].room_id@);
        assert(t[q].room_id@ == s[q].room_id@);
        assert(s[p].room_id@ != s[q].room_id@);
    }
    assert forall|k: Seq<char>| true implies #[trigger] live_has(t, k) == live_has(s, k) by {
        if live_has(t, k) {
            let p = choose|p: int| 0 <= p < t.len() && (#[trigger] t[p]).room_id@ == k;
            assert(s[p].room_id@ == k);
            assert(live_has(s, k));
        }
        if live_has(s, k) {
            let p = choose|p: int| 0 <= p < s.len() && (#[trigger] s[p]).room_id@ == k;
            assert(t[p].room_id@ == k);
            assert(live_has(t, k));
        }
    }
    assert(s[i].room_id@ == e.room_id@);
    assert(live_has(s, e.room_id@));
    lemma_live_index_unique(s, e.room_id@);
    assert forall|k: Seq<char>| live_has(s, k) implies #[trigger] live_index(t, k) == live_index(
        s,
        k,
    ) by {
        lemma_live_index_unique(s, k);
        lemma_live_index_unique(t, k);
        let p = live_index(t, k);
        assert(s[p].room_id@ == k);
    }
}

/// Appending an entry with a fresh identifier adds exactly that room to the
/// live map and leaves every other lookup in place.
proof fn lemma_live_push(s: Seq<LiveEntry>, e: LiveEntry)
    requires
        live_ids_distinct(s),
        !live_has(s, e.room_id@),
    ensures
        live_ids_distinct(s.push(e)),
        forall|k: Seq<char>|
            #[trigger] live_has(s.push(e), k) == (live_has(s, k) || k == e.room_id@),
        forall|k: Seq<char>|
            live_has(s, k) ==> #[trigger] live_index(s.push(e), k) == live_index(s, k),
        live_index(s.push(e), e.room_id@) == s.len(),
{
    let t = s.push(e);
    assert forall|p: int, q: int|
        #![trigger t[p], t[q]]
        0 <= p < q < t.len() implies t[p].room_id@ != t[q].room_id@ by {
        if q < s.len() {
            assert(s[p].room_id@ != s[q].room_id@);
        } else {
            assert(t[p] == s[p]);
            if s[p].room_id@ == e.room_id@ {
                assert(live_has(s, e.room_id@));
            }
        }
    }
    assert forall|k: Seq<char>| true implies #[trigger] live_has(t, k) == (live_has(s, k) || k
        == e.room_id@) by {
        if live_has(t, k) {
            let p = choose|p: int| 0 <= p < t.len() && (#[trigger] t[p]).room_id@ == k;
            if p < s.len() {
                assert(s[p].room_id@ == k);
                assert(live_has(s, k));
            }
        }
        if live_has(s, k) {
            let p = choose|p: int| 0 <= p < s.len() && (#[trigger] s[p]).room_id@ == k;
            assert(t[p].room_id@ == k);
            assert(live_has(t, k));
        }
        if k == e.room_id@ {
            assert(t[s.len() as int].room_id@ == k);
            assert(live_has(t, k));
        }
    }
    assert forall|k: Seq<char>| live_has(s, k) implies #[trigger] live_index(t, k) == live_index(
        s,
        k,
    ) by {
        lemma_live_index_unique(s, k);
        lemma_live_index_unique(t, k);
        let p = live_index(s, k);
        assert(t[p].room_id@ == k);
    }
    assert(t[s.len() as int].room_id@ == e.room_id@);
    assert(live_has(t, e.room_id@));
    lemma_live_index_unique(t, e.room_id@);
    let p = live_index(t, e.room_id@);
    if p < s.len() {
        assert(s[p].room_id@ == e.room_id@);
        assert(live_has(s, e.room_id@));
    }
}

/// Removing the entry at index `i` removes exactly its identifier from the
/// live map and leaves every other identifier's entry in place.
proof fn lemma_live_remove(s: Seq<LiveEntry>, i: int)
    requires
        live_ids_distinct(s),
        0 <= i < s.len(),
    ensures
        live_ids_distinct(s.remove(i)),
        forall|k: Seq<char>|
            #[trigger] live_has(s.remove(i), k) == (live_has(s, k) && k != s[i].room_id@),
        forall|k: Seq<char>|
            live_has(s.remove(i), k) ==> s.remove(i)[live_index(s.remove(i), k)] == s[live_index(
                s,
                k,
            )],
{
    let t = s.remove(i);
    assert forall|p: int, q: int|
        #![trigger t[p], t[q]]
        0 <= p < q < t.len() implies t[p].room_id@ != t[q].room_id@ by {
        let p0 = if p < i {
            p
        } else {
            p + 1
        };
        let q0 = if q < i {
            q
        } else {
            q + 1
        };
        assert(t[p] == s[p0]);
        assert(t[q] == s[q0]);
        assert(s[p0].room_id@ != s[q0].room_id@);
    }
    assert forall|k: Seq<char>| true implies #[trigger] live_has(t, k) == (live_has(s, k) && k
        != s[i].room_id@) by {
        if live_has(t, k) {
            let p = choose|p: int| 0 <= p < t.len() && (#[trigger] t[p]).room_id@ == k;
            let p0 = if p < i {
                p
            } else {
                p + 1
            };
            assert(t[p] == s[p0]);
            assert(s[p0].room_id@ == k);
            assert(live_has(s, k));
            if k == s[i].room_id@ {
                assert(p0 != i);
                if p0 < i {
                    assert(s[p0].room_id@ != s[i].room_id@);
                } else {
                    assert(s[i].room_id@ != s[p0].room_id@);
                }
            }
        }
        if live_has(s, k) && k != s[i].room_id@ {
            lemma_live_index_unique(s, k);
            let p0 = live_index(s, k);
            assert(p0 != i);
            let p = if p0 < i {
                p0
            } else {
                p0 - 1
            };
            assert(t[p] == s[p0]);
            assert(t[p].room_id@ == k);
            assert(live_has(t, k));
        }
    }
    assert forall|k: Seq<char>| live_has(t, k) implies t[live_index(t, k)] == s[live_index(
        s,
        k,
    )] by {
        lemma_live_index_unique(t, k);
        lemma_live_index_unique(s, k);
        let p = live_index(t, k);
        let p0 = if p < i {
            p
        } else {
            p + 1
        };
        assert(t[p] == s[p0]);
        assert(s[p0].room_id@ == k);
        assert(live_index(s, k) == p0);
    }
}

/// What draining a queue of captured updates into the store does to it:
/// no room appears or disappears, rooms other than `id` are untouched, and
/// the drained room's log grows by exactly the `appended` updates that the
/// store accepted — a subsequence of `queue` in queue order, and all of
/// `queue` when none of the appends failed.  Snapshots may be stored at the
/// newly appended sequence numbers; every other snapshot entry stays.
/// `a` is a subsequence of `b`: every element of `a` appears in `b`, in the
/// same order.
pub open spec fn subsequence_of(a: Seq<Seq<u8>>, b: Seq<Seq<u8>>) -> bool
    decreases a.len() + b.len(),
{
    if a.len() == 0 {
        true
    } else if b.len() == 0 {
        false
    } else if a.last() == b.last() {
        subsequence_of(a.drop_last(), b.drop_last()) || subsequence_of(a, b.drop_last())
    } else {
        subsequence_of(a, b.drop_last())
    }
}

/// A subsequence of `b` is one of `b` with an element appended and skipped.
proof fn lemma_subsequence_skip(a: Seq<Seq<u8>>, b: Seq<Seq<u8>>, x: Seq<u8>)
    requires
        subsequence_of(a, b),
    ensures
        subsequence_of(a, b.push(x)),
{
    let t = b.push(x);
    assert(t.drop_last() =~= b);
    assert(t.drop_last() == b);
    assert(t.last() == x);
}

/// Appending the same element to both sides keeps the subsequence.
proof fn lemma_subsequence_push(a: Seq<Seq<u8>>, b: Seq<Seq<u8>>, x: Seq<u8>)
    requires
        subsequence_of(a, b),
    ensures
        subsequence_of(a.push(x), b.push(x)),
{
    let ta = a.push(x);
    let tb = b.push(x);
    assert(ta.drop_last() =~= a);
    assert(ta.drop_last() == a);
    assert(tb.drop_last() =~= b);
    assert(tb.drop_last() == b);
    assert(ta.last() == x);
    assert(tb.last() == x);
}

/// Every snapshot entry outside the range of sequence numbers that `rm1`
/// appended past `rm0` is exactly as it was in `rm0`.
pub open spec fn snaps_preserved_outside(rm0: RoomModel, rm1: RoomModel) -> bool {
    forall|kk: LogSeq|
        #![trigger rm1.snapshots.dom().contains(kk)]
        #![trigger rm0.snapshots.dom().contains(kk)]
        !(rm0.updates.len() < kk <= rm1.updates.len()) ==> rm1.snapshots.dom().contains(kk)
            == rm0.snapshots.dom().contains(kk) && (rm0.snapshots.dom().contains(kk)
            ==> rm1.snapshots[kk] == rm0.snapshots[kk])
}

proof fn lemma_snaps_preserved_refl(rm: RoomModel)
    ensures
        snaps_preserved_outside(rm, rm),
{
}

/// Preservation carries over one worker step: the step either leaves the
/// snapshot set alone, or upserts one key among the newly appended
/// sequence numbers.
proof fn lemma_snaps_preserved_step(
    rm0: RoomModel,
    rmp: RoomModel,
    rm1: RoomModel,
    key: LogSeq,
    blob: Seq<u8>,
)
    requires
        snaps_preserved_outside(rm0, rmp),
        rm0.updates.len() <= rmp.updates.len() <= rm1.updates.len(),
        rm1.snapshots == rmp.snapshots || (rm1.snapshots == rmp.snapshots.insert(key, blob)
            && rm0.updates.len() < key <= rm1.updates.len()),
    ensures
        snaps_preserved_outside(rm0, rm1),
{
    assert forall|kk: LogSeq|
        !(rm0.updates.len() < kk <= rm1.updates.len()) implies (
    #[trigger] rm1.snapshots.dom().contains(kk)) == rm0.snapshots.dom().contains(kk) && (
    rm0.snapshots.dom().contains(kk) ==> rm1.snapshots[kk] == rm0.snapshots[kk]) by {
        assert(!(rm0.updates.len() < kk <= rmp.updates.len()));
        assert(rmp.snapshots.dom().contains(kk) == rm0.snapshots.dom().contains(kk) && (
        rm0.snapshots.dom().contains(kk) ==> rmp.snapshots[kk] == rm0.snapshots[kk]));
        if rm1.snapshots != rmp.snapshots {
            assert(kk != key);
        }
    }
}

pub open spec fn drained_store(
    pre: StoreModel,
    id: Seq<char>,
    queue: Seq<Seq<u8>>,
    appended: int,
    post: StoreModel,
) -> bool {
    &&& 0 <= appended <= queue.len()
    &&& forall|k: Seq<char>| #[trigger] post.contains_key(k) == pre.contains_key(k)
    &&& forall|k: Seq<char>|
        k != id && pre.contains_key(k) ==> #[trigger] post[k] == pre[k]
    &&& !pre.contains_key(id) ==> post == pre && appended == 0
    &&& pre.contains_key(id) ==> {
        let rm0 = pre[id];
        let rm1 = post[id];
        &&& rm1.updates.len() == rm0.updates.len() + appended
        &&& rm1.updates.take(rm0.updates.len() as int) =~= rm0.updates
        &&& subsequence_of(rm1.updates.skip(rm0.updates.len() as int), queue)
        &&& (appended == queue.len() ==> rm1.updates =~= rm0.updates + queue)
        &&& snaps_preserved_outside(rm0, rm1)
    }
}

/// Room admission, lazy materialization, eviction on last disconnect.
pub struct RoomManager<S> {
    storage: S,
    live: Vec<LiveEntry>,
    bcast_capacity: usize,
    snapshot_every_n_updates: u64,
    persist_queue_capacity: usize,
}

impl<S: Storage> RoomManager<S> {
    /// The rooms at rest, as the storage holds them.
    pub closed spec fn store_model(&self) -> StoreModel {
        self.storage.model()
    }

    /// The snapshot cadence, in updates.
    pub closed spec fn cadence(&self) -> u64 {
        self.snapshot_every_n_updates
    }

    /// The capacity of each live room's persistence queue.
    pub closed spec fn queue_capacity(&self) -> int {
        self.persist_queue_capacity as int
    }

    /// The broadcast-fabric buffer capacity the manager was constructed
    /// with.
    pub closed spec fn broadcast_capacity(&self) -> int {
        self.bcast_capacity as int
    }

    /// Whether the room is materialized in memory.
    pub closed spec fn is_live(&self, id: Seq<char>) -> bool {
        live_has(self.live@, id)
    }

    /// The live room of `id`.
    pub closed spec fn live_room(&self, id: Seq<char>) -> LiveRoom {
        self.live@[live_index(self.live@, id)].room
    }

    /// The number of active connections of the live room `id`.
    pub open spec fn live_connections(&self, id: Seq<char>) -> int {
        self.live_room(id).connections()
    }

    /// The update blobs applied to the live replica of `id`.
    pub open spec fn live_doc(&self, id: Seq<char>) -> Seq<Seq<u8>> {
        self.live_room(id).doc_model()
    }

    /// The pending contents of the persistence queue of `id`, oldest first.
    pub closed spec fn live_queue(&self, id: Seq<char>) -> Seq<Seq<u8>> {
        self.live@[live_index(self.live@, id)].queue.deep_view()
    }

    /// The persistence worker state of `id`.
    pub closed spec fn live_worker(&self, id: Seq<char>) -> PersistenceWorker {
        self.live@[live_index(self.live@, id)].worker
    }

    /// Well-formedness: the storage is well-formed, at most one live room
    /// per identifier, every live room has at least one connection, every
    /// worker carries the manager's cadence, and no queue exceeds its
    /// capacity.
    pub closed spec fn wf(&self) -> bool {
        &&& self.storage.wf()
        &&& live_ids_distinct(self.live@)
        &&& forall|i: int|
            0 <= i < self.live@.len() ==> {
                let e = #[trigger] self.live@[i];
                &&& e.room.wf()
                &&& e.room.connections() >= 1
                &&& e.worker.snapshot_every == self.snapshot_every_n_updates
                &&& e.queue@.len() <= self.persist_queue_capacity
            }
    }

    /// The manager's configuration is unchanged.
    pub open spec fn same_config(pre: Self, post: Self) -> bool {
        &&& post.cadence() == pre.cadence()
        &&& post.queue_capacity() == pre.queue_capacity()
        &&& post.broadcast_capacity() == pre.broadcast_capacity()
    }

    /// The live room `k` is exactly as it was.
    pub open spec fn live_entry_unchanged(pre: Self, post: Self, k: Seq<char>) -> bool {
        &&& post.is_live(k) == pre.is_live(k)
        &&& pre.is_live(k) ==> {
            &&& post.live_room(k) == pre.live_room(k)
            &&& post.live_queue(k) == pre.live_queue(k)
            &&& post.live_worker(k) == pre.live_worker(k)
        }
    }

    /// Every live room other than `id` is exactly as it was.
    pub open spec fn live_unchanged_except(pre: Self, post: Self, id: Seq<char>) -> bool {
        forall|k: Seq<char>|
            #![trigger post.is_live(k)]
            #![trigger pre.is_live(k)]
            k != id ==> Self::live_entry_unchanged(pre, post, k)
    }

    /// Every live room is exactly as it was.
    pub open spec fn live_unchanged(pre: Self, post: Self) -> bool {
        forall|k: Seq<char>|
            #![trigger post.is_live(k)]
            #![trigger pre.is_live(k)]
            Self::live_entry_unchanged(pre, post, k)
    }

    /// A fresh manager over `storage`, with no live rooms.
    pub fn new(
        storage: S,
        bcast_capacity: usize,
        snapshot_every_n_updates: u64,
        persist_queue_capacity: usize,
    ) -> (r: Self)
        requires
            storage.wf(),
        ensures
            r.wf(),
            r.store_model() == storage.model(),
            r.cadence() == snapshot_every_n_updates,
            r.queue_capacity() == persist_queue_capacity,
            r.broadcast_capacity() == bcast_capacity,
            forall|k: Seq<char>| !(#[trigger] r.is_live(k)),
    {
        let r = RoomManager {
            storage,
            live: Vec::new(),
            bcast_capacity,
            snapshot_every_n_updates,
            persist_queue_capacity,
        };
        proof {
            assert forall|k: Seq<char>| !(#[trigger] live_has(r.live@, k)) by {
                assert(r.live@.len() == 0);
            }
        }
        r
    }

    /// A borrow of the storage handle, for reads beside the manager.
    pub fn storage(&self) -> (r: &S)
        requires
            self.wf(),
        ensures
            r.wf(),
            r.model() == self.store_model(),
    {
        &self.storage
    }

    /// The index of the live entry of this room, if it is materialized.
    fn find_live(&self, room_id: &str) -> (r: Option<usize>)
        ensures
            match r {
                Some(i) => i < self.live@.len() && self.live@[i as int].room_id@ == room_id@,
                None => !live_has(self.live@, room_id@),
            },
    {
        let n = self.live.len();
        let mut i: usize = 0;
        while i < n
            invariant
                n == self.live@.len(),
                i <= n,
                forall|j: int| 0 <= j < i ==> (#[trigger] self.live@[j]).room_id@ != room_id@,
            decreases n - i,
        {
            if str_eq(self.live[i].room_id.as_str(), room_id) {
                return Some(i);
            }
            i = i + 1;
        }
        None
    }

    /// The live room of `room_id`, if it is materialized.
    pub fn get_live(&self, room_id: &str) -> (r: Option<&LiveRoom>)
        requires
            self.wf(),
        ensures
            match r {
                Some(room) => self.is_live(room_id@) && *room == self.live_room(room_id@)
                    && room.wf() && room.connections() >= 1,
                None => !self.is_live(room_id@),
            },
    {
        match self.find_live(room_id) {
            Some(i) => {
                proof {
                    assert(self.live@[i as int].room_id@ == room_id@);
                    assert(live_has(self.live@, room_id@));
                    lemma_live_index_unique(self.live@, room_id@);
                    assert(live_index(self.live@, room_id@) == i);
                }
                Some(&self.live[i].room)
            },
            None => None,
        }
    }

    /// Acquires the live room for `room_id`, materializing it if necessary,
    /// and counts one more connection.
    ///
    /// Materialization loads the best snapshot, applies it to an empty
    /// replica, then applies every logged update past the point it covers,
    /// in ascending order, and installs a fresh persistence pipeline.
    ///
    /// The manager holds at most one live room per identifier, so repeated
    /// connects all share that one room and each adds exactly one to its
    /// connection count; a connect that finds no live room either returns
    /// a freshly materialized room with count one, or fails leaving no
    /// live room behind.
    #[verifier::loop_isolation(false)]
    pub fn connect(&mut self, room_id: &str) -> (r: Result<(), Error>)
        requires
            old(self).wf(),
            old(self).is_live(room_id@) ==> old(self).live_connections(room_id@) < usize::MAX,
        ensures
            final(self).wf(),
            Self::same_config(*old(self), *final(self)),
            final(self).store_model() == old(self).store_model(),
            Self::live_unchanged_except(*old(self), *final(self), room_id@),
            match r {
                Ok(()) => {
                    &&& final(self).is_live(room_id@)
                    &&& old(self).is_live(room_id@) ==> {
                        &&& final(self).live_connections(room_id@) == old(self).live_connections(
                            room_id@,
                        ) + 1
                        &&& final(self).live_doc(room_id@) == old(self).live_doc(room_id@)
                        &&& final(self).live_queue(room_id@) == old(self).live_queue(room_id@)
                        &&& final(self).live_worker(room_id@) == old(self).live_worker(room_id@)
                    }
                    &&& !old(self).is_live(room_id@) ==> {
                        &&& old(self).store_model().contains_key(room_id@)
                        &&& final(self).live_connections(room_id@) == 1
                        &&& final(self).live_doc(room_id@) == materialized_updates(
                            old(self).store_model()[room_id@],
                        )
                        &&& final(self).live_queue(room_id@) == Seq::<Seq<u8>>::empty()
                        &&& final(self).live_worker(room_id@).since_snapshot == 0
                        &&& final(self).live_worker(room_id@).last_seq == 0
                        &&& final(self).live_room(room_id@).clean()
                        &&& forall|j: int|
                            0 <= j < materialized_updates(old(self).store_model()[room_id@]).len()
                                ==> decodes_v1(
                                #[trigger] materialized_updates(
                                    old(self).store_model()[room_id@],
                                )[j],
                            )
                    }
                },
                Err(e) => {
                    &&& !old(self).is_live(room_id@)
                    &&& !final(self).is_live(room_id@)
                    &&& e is NotFound || e is DecodingError || backend_failure(e)
                    &&& e is NotFound ==> !old(self).store_model().contains_key(room_id@)
                    &&& e is DecodingError ==> old(self).store_model().contains_key(room_id@)
                },
            },
    {
        if let Some(i) = self.find_live(room_id) {
            proof {
                assert(self.live@[i as int].room_id@ == room_id@);
                assert(live_has(self.live@, room_id@));
                lemma_live_index_unique(self.live@, room_id@);
            }
            let ghost old_live = self.live@;
            let entry = &mut self.live[i];
            entry.room.inc();
            proof {
                lemma_live_update(old_live, i as int, self.live@[i as int]);
            }
            return Ok(());
        }
        proof {
            self.storage.wf_bounded();
        }
        let ghost m0 = self.store_model();
        let ghost rm = m0[room_id@];
        let ghost mat = materialized_updates(rm);
        let mut doc = ReplicaDoc::new();
        let ghost mut head: int = 0;
        let start_from: u64;
        match self.storage.load_snapshot_best(room_id, None) {
            Err(e) => {
                return Err(e);
            },
            Ok(None) => {
                proof {
                    assert(!exists|k: LogSeq| rm.is_best_snapshot(k, None));
                    assert(mat == rm.updates);
                }
                start_from = 1;
            },
            Ok(Some(s)) => {
                proof {
                    let kb = choose|k: LogSeq| rm.is_best_snapshot(k, None);
                    crate::rooms::storage::lemma_best_snapshot_unique(
                        rm,
                        None,
                        kb,
                        s.covered_through,
                    );
                    assert(kb == s.covered_through);
                    assert(mat[0] == rm.snapshots[s.covered_through]);
                }
                match doc.apply_update(s.bytes.as_slice()) {
                    Ok(()) => {},
                    Err(_) => {
                        return Err(Error::DecodingError);
                    },
                }
                proof {
                    head = 1;
                    assert(decodes_v1(mat[0]));
                }
                start_from = if s.covered_through == u64::MAX {
                    u64::MAX
                } else {
                    s.covered_through + 1
                };
                proof {
                    let kb = choose|k: LogSeq| rm.is_best_snapshot(k, None);
                    assert(start_from == u64::MAX || start_from as int == kb as int + 1);
                    assert(start_from as int > kb as int || start_from == u64::MAX);
                }
            },
        }
        let opts = LoadUpdatesOptions { from: Some(start_from), to: None };
        let ghost gopts = opts;
        let entries = match self.storage.load_updates(room_id, opts) {
            Ok(v) => v,
            Err(e) => {
                return Err(e);
            },
        };
        proof {
            assert(rm.updates.len() <= MAX_SEQ);
            assert(doc@ =~= mat.take(head));
            assert(mat.len() == head + entries@.len()) by {
                if head == 1 {
                    let kb = choose|k: LogSeq| rm.is_best_snapshot(k, None);
                    if kb as int <= rm.updates.len() {
                        assert(mat =~= seq![rm.snapshots[kb]] + rm.updates.skip(kb as int));
                    } else {
                        assert(rm.updates.skip(rm.updates.len() as int) =~= Seq::<Seq<u8>>::empty());
                    }
                }
            }
            assert forall|q: int|
                0 <= q < entries@.len() implies (#[trigger] entries@[q].bytes@) == mat[head
                + q] by {
                let lo = crate::rooms::storage::range_lo(gopts);
                let hi = crate::rooms::storage::range_hi(gopts, rm.last_seq());
                assert(lo == start_from as int);
                assert(hi == rm.last_seq());
                assert(entries@[q].seq == lo + q);
                assert(lo <= hi);
                assert(entries@[q].bytes@ == rm.update_at(lo + q));
                if head == 1 {
                    let kb = choose|k: LogSeq| rm.is_best_snapshot(k, None);
                    assert(start_from as int <= rm.updates.len());
                    assert(start_from != u64::MAX);
                    assert(kb as int == start_from as int - 1);
                    assert((kb as int) < rm.updates.len());
                    assert(mat[1 + q] == rm.updates.skip(kb as int)[q]);
                    assert(rm.updates.skip(kb as int)[q] == rm.updates[kb as int + q]);
                    assert(rm.update_at(lo + q) == rm.updates[lo + q - 1]);
                }
            }
        }
        let n = entries.len();
        let mut j: usize = 0;
        while j < n
            invariant
                doc.wf(),
                doc.is_clean(),
                n == entries@.len(),
                j <= n,
                head + n == mat.len(),
                mat.len() <= MAX_SEQ + 1,
                doc@.len() == head + j,
                doc@ =~= mat.take(head + j),
                forall|q: int| 0 <= q < head + j ==> decodes_v1(#[trigger] mat[q]),
                forall|q: int|
                    0 <= q < entries@.len() ==> (#[trigger] entries@[q].bytes@) == mat[head + q],
            decreases n - j,
        {
            match doc.apply_update(entries[j].bytes.as_slice()) {
                Ok(()) => {},
                Err(_) => {
                    return Err(Error::DecodingError);
                },
            }
            j = j + 1;
        }
        proof {
            assert(doc@ =~= mat);
        }
        let room = LiveRoom { doc, conn_count: 1 };
        let worker = PersistenceWorker::new(self.snapshot_every_n_updates);
        let ghost old_live = self.live@;
        let entry = LiveEntry { room_id: room_id.to_owned(), room, worker, queue: Vec::new() };
        proof {
            lemma_live_push(old_live, entry);
        }
        self.live.push(entry);
        Ok(())
    }

    /// The hot path of the broadcast fabric: applies one inbound update to
    /// the live replica, then captures it for persistence with a
    /// non-blocking enqueue.  When the queue is full the update is dropped
    /// from the durable log but stays applied to the live document, so
    /// broadcast latency is never stalled by a slow store.
    pub fn apply_update(&mut self, room_id: &str, bytes: &[u8]) -> (r: Result<bool, Error>)
        requires
            old(self).wf(),
            old(self).is_live(room_id@) ==> old(self).live_doc(room_id@).len() < u64::MAX,
        ensures
            final(self).wf(),
            Self::same_config(*old(self), *final(self)),
            final(self).store_model() == old(self).store_model(),
            Self::live_unchanged_except(*old(self), *final(self), room_id@),
            final(self).is_live(room_id@) == old(self).is_live(room_id@),
            match r {
                Ok(queued) => {
                    &&& old(self).is_live(room_id@)
                    &&& decodes_v1(bytes@)
                    &&& final(self).live_doc(room_id@) == old(self).live_doc(room_id@).push(bytes@)
                    &&& final(self).live_connections(room_id@) == old(self).live_connections(
                        room_id@,
                    )
                    &&& final(self).live_worker(room_id@) == old(self).live_worker(room_id@)
                    &&& final(self).live_room(room_id@).clean() == old(self).live_room(
                        room_id@,
                    ).clean()
                    &&& queued == (old(self).live_queue(room_id@).len() < old(
                        self,
                    ).queue_capacity())
                    &&& final(self).live_queue(room_id@) == if queued {
                        old(self).live_queue(room_id@).push(bytes@)
                    } else {
                        old(self).live_queue(room_id@)
                    }
                },
                Err(e) => {
                    &&& e is NotFound || e is DecodingError
                    &&& e is NotFound <==> !old(self).is_live(room_id@)
                    &&& e is DecodingError <==> old(self).is_live(room_id@)
                    &&& old(self).is_live(room_id@) ==> {
                        &&& final(self).live_doc(room_id@) == old(self).live_doc(room_id@)
                        &&& final(self).live_connections(room_id@) == old(self).live_connections(
                            room_id@,
                        )
                        &&& final(self).live_queue(room_id@) == old(self).live_queue(room_id@)
                        &&& final(self).live_worker(room_id@) == old(self).live_worker(room_id@)
                        &&& (!decodes_v1(bytes@) ==> final(self).live_room(room_id@) == old(
                            self,
                        ).live_room(room_id@))
                        &&& (decodes_v1(bytes@) ==> !final(self).live_room(room_id@).clean())
                    }
                },
            },
    {
        let i = match self.find_live(room_id) {
            Some(i) => i,
            None => {
                return Err(Error::NotFound);
            },
        };
        proof {
            assert(self.live@[i as int].room_id@ == room_id@);
            assert(live_has(self.live@, room_id@));
            lemma_live_index_unique(self.live@, room_id@);
        }
        let ghost old_live = self.live@;
        let capacity = self.persist_queue_capacity;
        let applied = {
            let entry = &mut self.live[i];
            entry.room.doc.apply_update(bytes)
        };
        match applied {
            Ok(()) => {},
            Err(e) => {
                proof {
                    lemma_live_update(old_live, i as int, self.live@[i as int]);
                    if !decodes_v1(bytes@) {
                        assert(self.live@[i as int] == old_live[i as int]);
                        assert(self.live@ =~= old_live);
                        assert(self.live@ == old_live);
                    }
                }
                return Err(e);
            },
        }
        proof {
            lemma_live_update(old_live, i as int, self.live@[i as int]);
        }
        let ghost mid_live = self.live@;
        let queued = {
            let entry = &mut self.live[i];
            if entry.queue.len() < capacity {
                entry.queue.push(clone_bytes(bytes));
                true
            } else {
                false
            }
        };
        proof {
            lemma_live_update(mid_live, i as int, self.live@[i as int]);
            if queued {
                assert(self.live@[i as int].queue.deep_view() =~~= old_live[i as int].queue.deep_view().push(
                    bytes@,
                ));
            } else {
                assert(self.live@ =~= mid_live);
                assert(self.live@ == mid_live);
            }
        }
        Ok(queued)
    }

    /// The worker loop for the live entry at index `i`: consumes the queue
    /// oldest-first, appending each update and snapshotting at the cadence;
    /// returns how many updates the store accepted.
    #[verifier::loop_isolation(false)]
    fn drain_entry(&mut self, i: usize) -> (r: usize)
        requires
            old(self).wf(),
            i < old(self).live@.len(),
        ensures
            final(self).wf(),
            Self::same_config(*old(self), *final(self)),
            final(self).live@.len() == old(self).live@.len(),
            forall|p: int|
                0 <= p < old(self).live@.len() && p != i ==> final(self).live@[p] == old(
                    self,
                ).live@[p],
            final(self).live@[i as int].room_id == old(self).live@[i as int].room_id,
            final(self).live@[i as int].room == old(self).live@[i as int].room,
            final(self).live@[i as int].queue@.len() == 0,
            drained_store(
                old(self).store_model(),
                old(self).live@[i as int].room_id@,
                old(self).live@[i as int].queue.deep_view(),
                r as int,
                final(self).store_model(),
            ),
    {
        let ghost id = self.live@[i as int].room_id@;
        let ghost q0 = self.live@[i as int].queue.deep_view();
        let ghost m0 = self.store_model();
        proof {
            if m0.contains_key(id) {
                let rm0 = m0[id];
                assert(rm0.updates.skip(rm0.updates.len() as int) =~= Seq::<Seq<u8>>::empty());
                assert(q0.take(0) =~= Seq::<Seq<u8>>::empty());
                assert(subsequence_of(Seq::<Seq<u8>>::empty(), Seq::<Seq<u8>>::empty()));
            }
        }
        let mut appended: usize = 0;
        while self.live[i].queue.len() > 0
            invariant
                self.wf(),
                self.live@.len() == old(self).live@.len(),
                i < self.live@.len(),
                forall|p: int|
                    0 <= p < old(self).live@.len() && p != i ==> self.live@[p] == old(
                        self,
                    ).live@[p],
                self.live@[i as int].room_id == old(self).live@[i as int].room_id,
                self.live@[i as int].room == old(self).live@[i as int].room,
                self.snapshot_every_n_updates == old(self).snapshot_every_n_updates,
                self.persist_queue_capacity == old(self).persist_queue_capacity,
                self.bcast_capacity == old(self).bcast_capacity,
                appended <= q0.len() - self.live@[i as int].queue@.len(),
                self.live@[i as int].queue.deep_view() =~= q0.skip(
                    q0.len() - self.live@[i as int].queue@.len(),
                ),
                forall|k: Seq<char>|
                    #[trigger] self.store_model().contains_key(k) == m0.contains_key(k),
                forall|k: Seq<char>|
                    k != id && m0.contains_key(k) ==> #[trigger] self.store_model()[k] == m0[k],
                !m0.contains_key(id) ==> self.store_model() == m0 && appended == 0,
                m0.contains_key(id) ==> {
                    let rm0 = m0[id];
                    let rm1 = self.store_model()[id];
                    &&& rm1.updates.len() == rm0.updates.len() + appended
                    &&& rm1.updates.take(rm0.updates.len() as int) =~= rm0.updates
                    &&& subsequence_of(
                        rm1.updates.skip(rm0.updates.len() as int),
                        q0.take(q0.len() - self.live@[i as int].queue@.len()),
                    )
                    &&& (appended == q0.len() - self.live@[i as int].queue@.len()
                        ==> rm1.updates =~= rm0.updates + q0.take(appended as int))
                    &&& snaps_preserved_outside(rm0, rm1)
                },
            decreases self.live@[i as int].queue@.len(),
        {
            let ghost qv_pre = self.live@[i as int].queue;
            let ghost qlen_pre = self.live@[i as int].queue@.len();
            let ghost p = q0.len() - qlen_pre;
            let ghost app_pre = appended as int;
            let ghost m_entry = self.store_model();
            let bytes = {
                let entry = &mut self.live[i];
                entry.queue.remove(0)
            };
            proof {
                assert(qv_pre.deep_view() == q0.skip(p));
                assert(bytes@ == qv_pre.deep_view()[0]);
                assert(bytes@ == q0.skip(p)[0]);
                assert(bytes@ == q0[p]);
                let qv = self.live@[i as int].queue;
                assert(qv@ == qv_pre@.remove(0));
                assert forall|j: int| 0 <= j < qv@.len() implies #[trigger] qv.deep_view()[j]
                    == q0.skip(p + 1)[j] by {
                    assert(qv@[j] == qv_pre@[j + 1]);
                    assert(qv.deep_view()[j] == qv_pre.deep_view()[j + 1]);
                    assert(qv_pre.deep_view()[j + 1] == q0.skip(p)[j + 1]);
                    assert(q0.skip(p)[j + 1] == q0[p + 1 + j]);
                }
                assert(self.live@[i as int].queue.deep_view() =~= q0.skip(p + 1));
            }
            let ghost m_pre = self.store_model();
            proof {
                assert(m_pre == m_entry);
            }
            let step = {
                let entry = &mut self.live[i];
                entry.worker.process_update(
                    &mut self.storage,
                    entry.room_id.as_str(),
                    &entry.room.doc,
                    bytes.as_slice(),
                )
            };
            if !(matches!(step, PersistStep::AppendFailed(_))) {
                appended = appended + 1;
            }
            proof {
                if m0.contains_key(id) {
                    let rm0 = m0[id];
                    let rm_pre = m_pre[id];
                    let rm1 = self.store_model()[id];
                    match step {
                        PersistStep::AppendFailed(_) => {},
                        _ => {
                            assert(rm1.updates =~= rm_pre.updates + seq![q0[p]]);
                            assert(rm1.updates.take(rm0.updates.len() as int)
                                =~= rm_pre.updates.take(rm0.updates.len() as int));
                            if app_pre == p {
                                assert(rm_pre.updates =~= rm0.updates + q0.take(p));
                                assert(q0.take(p).push(q0[p]) =~= q0.take(p + 1));
                                assert(rm1.updates =~= rm0.updates + q0.take(p + 1));
                            }
                        },
                    }
                    assert(rm1.updates.len() == rm0.updates.len() + appended);
                    assert(rm1.updates.take(rm0.updates.len() as int) =~= rm0.updates);
                    assert(rm_pre == m_entry[id]);
                    assert(snaps_preserved_outside(rm0, rm_pre));
                    match step {
                        PersistStep::Snapshotted => {
                            let key = self.live@[i as int].worker.last_seq;
                            let blob = state_update_of(self.live@[i as int].room.doc@);
                            assert(rm1.snapshots == rm_pre.snapshots.insert(key, blob));
                            assert(rm0.updates.len() < key <= rm1.updates.len());
                            lemma_snaps_preserved_step(rm0, rm_pre, rm1, key, blob);
                        },
                        _ => {
                            assert(rm1.snapshots == rm_pre.snapshots);
                            lemma_snaps_preserved_step(rm0, rm_pre, rm1, 0, Seq::empty());
                        },
                    }
                    assert(snaps_preserved_outside(rm0, rm1));
                    // The accepted suffix stays a subsequence, in order, of
                    // the processed part of the queue.
                    let suffix_pre = rm_pre.updates.skip(rm0.updates.len() as int);
                    let suffix_new = rm1.updates.skip(rm0.updates.len() as int);
                    assert(suffix_pre == m_entry[id].updates.skip(rm0.updates.len() as int));
                    assert(subsequence_of(suffix_pre, q0.take(p)));
                    assert(q0.take(p).push(q0[p]) =~= q0.take(p + 1));
                    match step {
                        PersistStep::AppendFailed(_) => {
                            assert(suffix_new == suffix_pre);
                            lemma_subsequence_skip(suffix_pre, q0.take(p), q0[p]);
                            assert(subsequence_of(suffix_new, q0.take(p + 1)));
                        },
                        _ => {
                            assert(suffix_new =~= suffix_pre.push(q0[p]));
                            lemma_subsequence_push(suffix_pre, q0.take(p), q0[p]);
                            assert(subsequence_of(suffix_new, q0.take(p + 1)));
                        },
                    }
                }
            }
        }
        proof {
            assert(self.live@[i as int].queue.deep_view() =~= q0.skip(q0.len() as int));
            if m0.contains_key(id) {
                assert(q0.take(q0.len() as int) =~= q0);
            }
        }
        appended
    }

    /// Runs the room's persistence worker until its queue is empty.  Each
    /// queued update is appended to the durable log, with snapshots stored
    /// at the configured cadence; an update whose append fails is logged
    /// and skipped by the worker, so it is absent from the log.  Returns
    /// how many of the queued updates the store accepted.
    pub fn drain_persistence(&mut self, room_id: &str) -> (r: usize)
        requires
            old(self).wf(),
        ensures
            final(self).wf(),
            Self::same_config(*old(self), *final(self)),
            Self::live_unchanged_except(*old(self), *final(self), room_id@),
            final(self).is_live(room_id@) == old(self).is_live(room_id@),
            !old(self).is_live(room_id@) ==> final(self).store_model() == old(self).store_model()
                && r == 0,
            old(self).is_live(room_id@) ==> {
                &&& final(self).live_room(room_id@) == old(self).live_room(room_id@)
                &&& final(self).live_queue(room_id@) == Seq::<Seq<u8>>::empty()
                &&& drained_store(
                    old(self).store_model(),
                    room_id@,
                    old(self).live_queue(room_id@),
                    r as int,
                    final(self).store_model(),
                )
            },
    {
        let i = match self.find_live(room_id) {
            Some(i) => i,
            None => {
                return 0;
            },
        };
        proof {
            assert(self.live@[i as int].room_id@ == room_id@);
            assert(live_has(self.live@, room_id@));
            lemma_live_index_unique(self.live@, room_id@);
        }
        let ghost old_live = self.live@;
        let r = self.drain_entry(i);
        proof {
            assert(self.live@ =~= old_live.update(i as int, self.live@[i as int]));
            lemma_live_update(old_live, i as int, self.live@[i as int]);
        }
        r
    }

    /// Releases one connection.  When the last connection leaves, the
    /// worker drains the pending persistence queue and the room is evicted
    /// from memory; a room whose count is still positive, or one that is
    /// not live, is otherwise untouched.
    ///
    /// Eviction happens only on the transition to zero connections, so a
    /// later connect observes either the surviving room with a positive
    /// count or no live room at all — never a torn state.
    pub fn disconnect(&mut self, room_id: &str)
        requires
            old(self).wf(),
        ensures
            final(self).wf(),
            Self::same_config(*old(self), *final(self)),
            Self::live_unchanged_except(*old(self), *final(self), room_id@),
            !old(self).is_live(room_id@) ==> final(self).store_model() == old(self).store_model()
                && Self::live_entry_unchanged(*old(self), *final(self), room_id@),
            old(self).is_live(room_id@) && old(self).live_connections(room_id@) > 1 ==> {
                &&& final(self).is_live(room_id@)
                &&& final(self).live_connections(room_id@) == old(self).live_connections(room_id@)
                    - 1
                &&& final(self).live_doc(room_id@) == old(self).live_doc(room_id@)
                &&& final(self).live_queue(room_id@) == old(self).live_queue(room_id@)
                &&& final(self).live_worker(room_id@) == old(self).live_worker(room_id@)
                &&& final(self).store_model() == old(self).store_model()
            },
            old(self).is_live(room_id@) && old(self).live_connections(room_id@) == 1 ==> {
                &&& !final(self).is_live(room_id@)
                &&& exists|n: int|
                    drained_store(
                        old(self).store_model(),
                        room_id@,
                        old(self).live_queue(room_id@),
                        n,
                        final(self).store_model(),
                    )
            },
    {
        let i = match self.find_live(room_id) {
            Some(i) => i,
            None => {
                return ;
            },
        };
        proof {
            assert(self.live@[i as int].room_id@ == room_id@);
            assert(live_has(self.live@, room_id@));
            lemma_live_index_unique(self.live@, room_id@);
        }
        let cnt = self.live[i].room.connection_count();
        if cnt > 1 {
            let ghost old_live = self.live@;
            {
                let entry = &mut self.live[i];
                entry.room.dec();
            }
            proof {
                lemma_live_update(old_live, i as int, self.live@[i as int]);
            }
        } else {
            proof {
                assert(live_index(old(self).live@, room_id@) == i);
            }
            let drained = self.drain_entry(i);
            proof {
                assert(self.live@ =~= old(self).live@.update(i as int, self.live@[i as int]));
                lemma_live_update(old(self).live@, i as int, self.live@[i as int]);
                assert(drained_store(
                    old(self).store_model(),
                    room_id@,
                    old(self).live_queue(room_id@),
                    drained as int,
                    self.store_model(),
                ));
            }
            let ghost m_drained = self.store_model();
            let ghost mid_live = self.live@;
            {
                let entry = &mut self.live[i];
                entry.room.dec();
            }
            proof {
                lemma_live_update(mid_live, i as int, self.live@[i as int]);
                lemma_live_remove(self.live@, i as int);
                assert(self.live@[i as int].room_id@ == room_id@);
            }
            self.live.remove(i);
            proof {
                assert(!live_has(self.live@, room_id@));
                assert(self.store_model() == m_drained);
            }
        }
    }

    /// Creates a room at rest; fails with `AlreadyExists` if a persisted
    /// record is present.
    pub fn create_room(&mut self, room_id: &str) -> (r: Result<(), Error>)
        requires
            old(self).wf(),
        ensures
            final(self).wf(),
            Self::same_config(*old(self), *final(self)),
            Self::live_unchanged(*old(self), *final(self)),
            match r {
                Ok(()) => {
                    &&& !old(self).store_model().contains_key(room_id@)
                    &&& final(self).store_model() == old(self).store_model().insert(
                        room_id@,
                        RoomModel::empty(),
                    )
                },
                Err(e) => {
                    &&& final(self).store_model() == old(self).store_model()
                    &&& e is AlreadyExists || backend_failure(e)
                    &&& e is AlreadyExists ==> old(self).store_model().contains_key(room_id@)
                    &&& old(self).store_model().contains_key(room_id@) ==> !(r is Ok)
                },
            },
    {
        let exists_at_rest = match self.storage.room_exists(room_id) {
            Ok(b) => b,
            Err(e) => {
                return Err(e);
            },
        };
        if exists_at_rest {
            return Err(Error::AlreadyExists);
        }
        let opts = CreateRoomOptions { fail_if_exists: false };
        match self.storage.create_room(room_id, opts) {
            Ok(()) => Ok(()),
            Err(e) => Err(e),
        }
    }
}

} // verus!

