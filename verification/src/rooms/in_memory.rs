//! In-memory implementation of [`Storage`].
//!
//! Rooms are held as a vector of [`RoomData`] records with pairwise distinct
//! identifiers; the log of each room is a vector whose entry `i` carries
//! sequence number `i + 1`, and the snapshot set is a vector kept strictly
//! ascending by `covered_through`.

use vstd::prelude::*;

use crate::rooms::error::Error;
use crate::rooms::storage::{
    append_model, room_info_matches, store_snapshot_model, CreateRoomOptions,
    LoadUpdatesOptions, LogSeq, RoomInfo, RoomModel, Snapshot, SnapshotInfo, Storage, StoreModel,
    UpdateEntry, MAX_SEQ,
};
use crate::rooms::doc::{decodes_v1, encode_text_doc};
use crate::text::{clone_bytes, str_eq};

verus! {

/// The at-rest record of one room.
pub struct RoomData {
    info: RoomInfo,
    updates: Vec<UpdateEntry>,
    snapshots: Vec<Snapshot>,
}

/// The snapshot vector is strictly ascending by `covered_through`.
spec fn snaps_sorted(s: Seq<Snapshot>) -> bool {
    forall|i: int, j: int|
        #![trigger s[i], s[j]]
        0 <= i < j < s.len() ==> s[i].covered_through < s[j].covered_through
}

/// Some stored snapshot covers through `k`.
spec fn snap_has(s: Seq<Snapshot>, k: LogSeq) -> bool {
    exists|i: int| 0 <= i < s.len() && (#[trigger] s[i]).covered_through == k
}

/// The index of the snapshot covering through `k`.
spec fn snap_index(s: Seq<Snapshot>, k: LogSeq) -> int {
    choose|i: int| 0 <= i < s.len() && (#[trigger] s[i]).covered_through == k
}

/// The snapshot vector, read as a map from `covered_through` to payload.
spec fn snaps_map(s: Seq<Snapshot>) -> Map<LogSeq, Seq<u8>> {
    Map::new(|k: LogSeq| snap_has(s, k), |k: LogSeq| s[snap_index(s, k)].bytes@)
}

proof fn lemma_snap_index_unique(s: Seq<Snapshot>, k: LogSeq)
    requires
        snaps_sorted(s),
        snap_has(s, k),
    ensures
        0 <= snap_index(s, k) < s.len(),
        s[snap_index(s, k)].covered_through == k,
        forall|i: int|
            0 <= i < s.len() && (#[trigger] s[i]).covered_through == k ==> i == snap_index(s, k),
{
    let idx = snap_index(s, k);
    assert(0 <= idx < s.len() && s[idx].covered_through == k);
    assert forall|i: int|
        0 <= i < s.len() && (#[trigger] s[i]).covered_through == k implies i == idx by {
        if i < idx {
            assert(s[i].covered_through < s[idx].covered_through);
        } else if idx < i {
            assert(s[idx].covered_through < s[i].covered_through);
        }
    }
}

/// Replacing the snapshot at index `j` by one with the same key upserts
/// exactly that key.
proof fn lemma_snaps_replace(s: Seq<Snapshot>, j: int, snap: Snapshot)
    requires
        snaps_sorted(s),
        0 <= j < s.len(),
        snap.covered_through == s[j].covered_through,
    ensures
        snaps_sorted(s.update(j, snap)),
        snaps_map(s.update(j, snap)) =~= snaps_map(s).insert(snap.covered_through, snap.bytes@),
{
    let t = s.update(j, snap);
    assert forall|p: int, q: int|
        #![trigger t[p], t[q]]
        0 <= p < q < t.len() implies t[p].covered_through < t[q].covered_through by {
        assert(t[p].covered_through == s[p].covered_through);
        assert(t[q].covered_through == s[q].covered_through);
        assert(s[p].covered_through < s[q].covered_through);
    }
    assert forall|k: LogSeq| true implies #[trigger] snap_has(t, k) == snap_has(s, k) by {
        if snap_has(t, k) {
            let p = choose|p: int| 0 <= p < t.len() && (#[trigger] t[p]).covered_through == k;
            assert(s[p].covered_through == k);
            assert(snap_has(s, k));
        }
        if snap_has(s, k) {
            let p = choose|p: int| 0 <= p < s.len() && (#[trigger] s[p]).covered_through == k;
            assert(t[p].covered_through == k);
            assert(snap_has(t, k));
        }
    }
    assert(s[j].covered_through == snap.covered_through);
    assert(snap_has(s, snap.covered_through));
    assert forall|k: LogSeq| #[trigger] snap_has(t, k) implies t[snap_index(t, k)].bytes@
        == snaps_map(s).insert(snap.covered_through, snap.bytes@)[k] by {
        lemma_snap_index_unique(t, k);
        lemma_snap_index_unique(s, k);
        let p = snap_index(t, k);
        assert(s[p].covered_through == k);
        assert(snap_index(s, k) == p);
        if k == snap.covered_through {
            assert(p == j);
            assert(t[p] == snap);
        } else {
            assert(p != j);
            assert(t[p] == s[p]);
        }
    }
}

/// Inserting a snapshot with a fresh key at its sorted position upserts
/// exactly that key.
proof fn lemma_snaps_insert(s: Seq<Snapshot>, j: int, snap: Snapshot)
    requires
        snaps_sorted(s),
        0 <= j <= s.len(),
        forall|p: int| 0 <= p < j ==> (#[trigger] s[p]).covered_through < snap.covered_through,
        forall|p: int|
            j <= p < s.len() ==> (#[trigger] s[p]).covered_through > snap.covered_through,
    ensures
        snaps_sorted(s.insert(j, snap)),
        snaps_map(s.insert(j, snap)) =~= snaps_map(s).insert(snap.covered_through, snap.bytes@),
{
    let t = s.insert(j, snap);
    assert(t.len() == s.len() + 1);
    assert forall|p: int| 0 <= p < j implies t[p] == s[p] by {}
    assert(t[j] == snap);
    assert forall|p: int| j < p < t.len() implies t[p] == s[p - 1] by {}
    assert forall|p: int, q: int|
        #![trigger t[p], t[q]]
        0 <= p < q < t.len() implies t[p].covered_through < t[q].covered_through by {
        let p0 = if p < j {
            p
        } else {
            p - 1
        };
        let q0 = if q < j {
            q
        } else {
            q - 1
        };
        if p == j {
            assert(t[q] == s[q0]);
        } else if q == j {
            assert(t[p] == s[p0]);
        } else {
            assert(t[p] == s[p0]);
            assert(t[q] == s[q0]);
        }
    }
    assert forall|k: LogSeq| true implies #[trigger] snap_has(t, k) == (snap_has(s, k) || k
        == snap.covered_through) by {
        if snap_has(t, k) {
            let p = choose|p: int| 0 <= p < t.len() && (#[trigger] t[p]).covered_through == k;
            if p < j {
                assert(s[p].covered_through == k);
                assert(snap_has(s, k));
            } else if p > j {
                assert(s[p - 1].covered_through == k);
                assert(snap_has(s, k));
            }
        }
        if snap_has(s, k) {
            let p = choose|p: int| 0 <= p < s.len() && (#[trigger] s[p]).covered_through == k;
            if p < j {
                assert(t[p].covered_through == k);
            } else {
                assert(t[p + 1].covered_through == k);
            }
            assert(snap_has(t, k));
        }
        if k == snap.covered_through {
            assert(t[j].covered_through == k);
            assert(snap_has(t, k));
        }
    }
    assert forall|k: LogSeq| #[trigger] snap_has(t, k) implies t[snap_index(t, k)].bytes@
        == snaps_map(s).insert(snap.covered_through, snap.bytes@)[k] by {
        lemma_snap_index_unique(t, k);
        let p = snap_index(t, k);
        if k == snap.covered_through {
            assert(t[j].covered_through == k);
            assert(p == j);
            assert(t[p] == snap);
        } else {
            assert(p != j);
            let p0 = if p < j {
                p
            } else {
                p - 1
            };
            assert(t[p] == s[p0]);
            assert(s[p0].covered_through == k);
            assert(snap_has(s, k));
            lemma_snap_index_unique(s, k);
            assert(snap_index(s, k) == p0);
        }
    }
}

impl RoomData {
    /// The room's identifier.
    pub closed spec fn id(self) -> Seq<char> {
        self.info.room_id@
    }

    /// Representation invariant: `last_seq` counts the log, entry `i` holds
    /// sequence number `i + 1`, snapshots are strictly ascending by
    /// `covered_through`, and the cached latest-snapshot summary agrees with
    /// the last element of the snapshot vector.
    pub closed spec fn wf(self) -> bool {
        &&& self.info.last_seq == self.updates@.len()
        &&& self.updates@.len() <= MAX_SEQ
        &&& forall|i: int|
            0 <= i < self.updates@.len() ==> (#[trigger] self.updates@[i]).seq == i + 1
        &&& snaps_sorted(self.snapshots@)
        &&& match self.info.latest_snapshot {
            Some(si) => self.snapshots@.len() > 0 && si.covered_through
                == self.snapshots@.last().covered_through && si.size_bytes
                == self.snapshots@.last().bytes@.len(),
            None => self.snapshots@.len() == 0,
        }
    }

    /// Abstraction to the mathematical room model.
    pub closed spec fn model(self) -> RoomModel {
        RoomModel {
            updates: Seq::new(self.updates@.len(), |i: int| self.updates@[i].bytes@),
            snapshots: snaps_map(self.snapshots@),
        }
    }
}

/// A well-formed room record's cached `info` is a correct summary of its
/// model.
proof fn lemma_info_matches(rd: RoomData)
    requires
        rd.wf(),
    ensures
        room_info_matches(rd.id(), rd.model(), rd.info),
{
    let s = rd.snapshots@;
    match rd.info.latest_snapshot {
        Some(si) => {
            let last = s.len() - 1;
            assert(s[last].covered_through == si.covered_through);
            assert(snap_has(s, si.covered_through));
            lemma_snap_index_unique(s, si.covered_through);
            assert(snap_index(s, si.covered_through) == last);
            assert(rd.model().snapshots[si.covered_through] == s[last].bytes@);
            assert forall|kk: LogSeq|
                rd.model().snapshots.dom().contains(kk) implies kk <= si.covered_through by {
                let p = choose|p: int| 0 <= p < s.len() && (#[trigger] s[p]).covered_through == kk;
                if p < last {
                    assert(s[p].covered_through < s[last].covered_through);
                }
            }
        },
        None => {
            assert forall|kk: LogSeq| !(#[trigger] snap_has(s, kk)) by {
                assert(s.len() == 0);
            }
            assert(rd.model().snapshots.dom() =~= Set::empty());
        },
    }
}

/// The room identifiers are pairwise distinct.
spec fn ids_distinct(rooms: Seq<RoomData>) -> bool {
    forall|i: int, j: int|
        #![trigger rooms[i], rooms[j]]
        0 <= i < j < rooms.len() ==> rooms[i].id() != rooms[j].id()
}

/// Some room carries the identifier `k`.
spec fn has_id(rooms: Seq<RoomData>, k: Seq<char>) -> bool {
    exists|i: int| 0 <= i < rooms.len() && (#[trigger] rooms[i]).id() == k
}

/// The index of the room with identifier `k`.
spec fn id_index(rooms: Seq<RoomData>, k: Seq<char>) -> int {
    choose|i: int| 0 <= i < rooms.len() && (#[trigger] rooms[i]).id() == k
}

/// The room vector, read as a map from identifier to room model.
spec fn rooms_map(rooms: Seq<RoomData>) -> StoreModel {
    Map::new(
        |k: Seq<char>| has_id(rooms, k),
        |k: Seq<char>| rooms[id_index(rooms, k)].model(),
    )
}

proof fn lemma_id_index_unique(rooms: Seq<RoomData>, k: Seq<char>)
    requires
        ids_distinct(rooms),
        has_id(rooms, k),
    ensures
        0 <= id_index(rooms, k) < rooms.len(),
        rooms[id_index(rooms, k)].id() == k,
        forall|i: int|
            0 <= i < rooms.len() && (#[trigger] rooms[i]).id() == k ==> i == id_index(rooms, k),
{
    let idx = id_index(rooms, k);
    assert(0 <= idx < rooms.len() && rooms[idx].id() == k);
    assert forall|i: int| 0 <= i < rooms.len() && (#[trigger] rooms[i]).id() == k implies i
        == idx by {
        if i < idx {
            assert(rooms[i].id() != rooms[idx].id());
        } else if idx < i {
            assert(rooms[idx].id() != rooms[i].id());
        }
    }
}

/// Appending a room with a fresh identifier adds exactly that room to the
/// map.
proof fn lemma_rooms_push(rooms: Seq<RoomData>, rd: RoomData)
    requires
        ids_distinct(rooms),
        !has_id(rooms, rd.id()),
    ensures
        ids_distinct(rooms.push(rd)),
        rooms_map(rooms.push(rd)) =~= rooms_map(rooms).insert(rd.id(), rd.model()),
{
    let t = rooms.push(rd);
    assert forall|i: int, j: int|
        #![trigger t[i], t[j]]
        0 <= i < j < t.len() implies t[i].id() != t[j].id() by {
        if j < rooms.len() {
            assert(rooms[i].id() != rooms[j].id());
        } else {
            assert(t[i] == rooms[i]);
            if rooms[i].id() == rd.id() {
                assert(has_id(rooms, rd.id()));
            }
        }
    }
    assert forall|k: Seq<char>| true implies #[trigger] has_id(t, k) == (has_id(rooms, k) || k
        == rd.id()) by {
        if has_id(t, k) {
            let i = choose|i: int| 0 <= i < t.len() && (#[trigger] t[i]).id() == k;
            if i < rooms.len() {
                assert(rooms[i].id() == k);
                assert(has_id(rooms, k));
            }
        }
        if has_id(rooms, k) {
            let i = choose|i: int| 0 <= i < rooms.len() && (#[trigger] rooms[i]).id() == k;
            assert(t[i].id() == k);
            assert(has_id(t, k));
        }
        if k == rd.id() {
            assert(t[rooms.len() as int].id() == k);
            assert(has_id(t, k));
        }
    }
    assert forall|k: Seq<char>| #[trigger] has_id(t, k) implies t[id_index(t, k)].model()
        == rooms_map(rooms).insert(rd.id(), rd.model())[k] by {
        lemma_id_index_unique(t, k);
        let i = id_index(t, k);
        if k == rd.id() {
            assert(t[rooms.len() as int].id() == k);
            assert(i == rooms.len());
            assert(t[i] == rd);
        } else {
            assert(i < rooms.len());
            assert(rooms[i].id() == k);
            assert(has_id(rooms, k));
            lemma_id_index_unique(rooms, k);
            assert(id_index(rooms, k) == i);
            assert(t[i] == rooms[i]);
        }
    }
}

/// Replacing the room at index `i` by one with the same identifier updates
/// exactly that room's model.
proof fn lemma_rooms_update(rooms: Seq<RoomData>, i: int, rd: RoomData)
    requires
        ids_distinct(rooms),
        0 <= i < rooms.len(),
        rd.id() == rooms[i].id(),
    ensures
        ids_distinct(rooms.update(i, rd)),
        rooms_map(rooms.update(i, rd)) =~= rooms_map(rooms).insert(rd.id(), rd.model()),
{
    let t = rooms.update(i, rd);
    assert forall|p: int, q: int|
        #![trigger t[p], t[q]]
        0 <= p < q < t.len() implies t[p].id() != t[q].id() by {
        assert(t[p].id() == rooms[p].id());
        assert(t[q].id() == rooms[q].id());
        assert(rooms[p].id() != rooms[q].id());
    }
    assert forall|k: Seq<char>| true implies #[trigger] has_id(t, k) == has_id(rooms, k) by {
        if has_id(t, k) {
            let p = choose|p: int| 0 <= p < t.len() && (#[trigger] t[p]).id() == k;
            assert(rooms[p].id() == k);
            assert(has_id(rooms, k));
        }
        if has_id(rooms, k) {
            let p = choose|p: int| 0 <= p < rooms.len() && (#[trigger] rooms[p]).id() == k;
            assert(t[p].id() == k);
            assert(has_id(t, k));
        }
    }
    assert(has_id(rooms, rd.id()));
    assert forall|k: Seq<char>| #[trigger] has_id(t, k) implies t[id_index(t, k)].model()
        == rooms_map(rooms).insert(rd.id(), rd.model())[k] by {
        lemma_id_index_unique(t, k);
        lemma_id_index_unique(rooms, k);
        let p = id_index(t, k);
        assert(rooms[p].id() == k);
        assert(id_index(rooms, k) == p);
        if k == rd.id() {
            assert(rooms[i].id() == k);
            assert(p == i);
            assert(t[p] == rd);
        } else {
            assert(p != i);
            assert(t[p] == rooms[p]);
        }
    }
}

/// Removing the room at index `i` removes exactly its identifier from the
/// map.
proof fn lemma_rooms_remove(rooms: Seq<RoomData>, i: int)
    requires
        ids_distinct(rooms),
        0 <= i < rooms.len(),
    ensures
        ids_distinct(rooms.remove(i)),
        rooms_map(rooms.remove(i)) =~= rooms_map(rooms).remove(rooms[i].id()),
{
    let t = rooms.remove(i);
    assert forall|p: int, q: int|
        #![trigger t[p], t[q]]
        0 <= p < q < t.len() implies t[p].id() != t[q].id() by {
        let p0 = if p < i { p } else { p + 1 };
        let q0 = if q < i { q } else { q + 1 };
        assert(t[p] == rooms[p0]);
        assert(t[q] == rooms[q0]);
        assert(rooms[p0].id() != rooms[q0].id());
    }
    assert forall|k: Seq<char>| true implies #[trigger] has_id(t, k) == (has_id(rooms, k) && k
        != rooms[i].id()) by {
        if has_id(t, k) {
            let p = choose|p: int| 0 <= p < t.len() && (#[trigger] t[p]).id() == k;
            let p0 = if p < i { p } else { p + 1 };
            assert(t[p] == rooms[p0]);
            assert(rooms[p0].id() == k);
            assert(has_id(rooms, k));
            if k == rooms[i].id() {
                assert(p0 != i);
                if p0 < i {
                    assert(rooms[p0].id() != rooms[i].id());
                } else {
                    assert(rooms[i].id() != rooms[p0].id());
                }
            }
        }
        if has_id(rooms, k) && k != rooms[i].id() {
            lemma_id_index_unique(rooms, k);
            let p0 = id_index(rooms, k);
            assert(p0 != i);
            let p = if p0 < i { p0 } else { p0 - 1 };
            assert(t[p] == rooms[p0]);
            assert(t[p].id() == k);
            assert(has_id(t, k));
        }
    }
    assert forall|k: Seq<char>| #[trigger] has_id(t, k) implies t[id_index(t, k)].model()
        == rooms_map(rooms).remove(rooms[i].id())[k] by {
        lemma_id_index_unique(t, k);
        lemma_id_index_unique(rooms, k);
        let p = id_index(t, k);
        let p0 = if p < i { p } else { p + 1 };
        assert(t[p] == rooms[p0]);
        assert(rooms[p0].id() == k);
        assert(id_index(rooms, k) == p0);
    }
}

/// In-memory room store.
pub struct InMemoryStorage {
    rooms: Vec<RoomData>,
}

impl InMemoryStorage {
    /// A fresh store.  It auto-creates the demo room at startup, seeded
    /// with a single update blob that encodes the demo screenplay
    /// document.
    pub fn new() -> (r: Self)
        ensures
            r.wf(),
            r.model().dom() =~= Set::<Seq<char>>::empty().insert("demo-room-1"@),
            r.model()["demo-room-1"@].updates.len() == 1,
            decodes_v1(r.model()["demo-room-1"@].updates[0]),
            r.model()["demo-room-1"@].snapshots =~= Map::<LogSeq, Seq<u8>>::empty(),
    {
        let bytes = encode_text_doc(
            "EXT. BRICK'S PATIO - DAY\n\nA gorgeous day.  The sun is shining.  But BRICK BRADDOCK, retired police detective, is sitting quietly, contemplating -- something.\n\nThe SCREEN DOOR slides open and DICK STEEL, his former partner and fellow retiree, emerges with two cold beers.\n\nSTEEL\nBeer's ready!\n\nBRICK\nAre they cold?",
        );
        let ghost bv = bytes@;
        let mut updates: Vec<UpdateEntry> = Vec::new();
        updates.push(UpdateEntry { seq: 1, bytes });
        let rd = RoomData {
            info: RoomInfo {
                room_id: "demo-room-1".to_owned(),
                last_seq: 1,
                latest_snapshot: None,
            },
            updates,
            snapshots: Vec::new(),
        };
        let mut rooms: Vec<RoomData> = Vec::new();
        rooms.push(rd);
        let s = InMemoryStorage { rooms };
        proof {
            let rd0 = s.rooms@[0];
            assert(rd0.wf());
            assert forall|k: Seq<char>| #[trigger]
                has_id(s.rooms@, k) == (k == "demo-room-1"@) by {
                if has_id(s.rooms@, k) {
                    let p = choose|p: int|
                        0 <= p < s.rooms@.len() && (#[trigger] s.rooms@[p]).id() == k;
                    assert(p == 0);
                }
                if k == "demo-room-1"@ {
                    assert(s.rooms@[0].id() == k);
                }
            }
            assert(s.wf());
            assert(rooms_map(s.rooms@).dom() =~= Set::<Seq<char>>::empty().insert(
                "demo-room-1"@,
            ));
            lemma_id_index_unique(s.rooms@, "demo-room-1"@);
            assert(id_index(s.rooms@, "demo-room-1"@) == 0);
            assert(rd0.model().updates =~= seq![bv]);
            assert forall|kk: LogSeq| !(#[trigger] snap_has(rd0.snapshots@, kk)) by {
                assert(rd0.snapshots@.len() == 0);
            }
            assert(rd0.model().snapshots =~= Map::<LogSeq, Seq<u8>>::empty());
        }
        s
    }

    /// Appends one update to the room at index `i`, assigning the next
    /// sequence number.
    fn append_one(&mut self, i: usize, update: &[u8]) -> (seq: LogSeq)
        requires
            old(self).wf(),
            i < old(self).rooms@.len(),
            old(self).rooms@[i as int].updates@.len() < MAX_SEQ,
        ensures
            final(self).wf(),
            final(self).rooms@.len() == old(self).rooms@.len(),
            final(self).rooms@[i as int].id() == old(self).rooms@[i as int].id(),
            final(self).rooms@[i as int].updates@.len() == old(self).rooms@[i as int].updates@.len()
                + 1,
            seq == old(self).rooms@[i as int].model().next_seq(),
            final(self).model() == old(self).model().insert(
                old(self).rooms@[i as int].id(),
                append_model(old(self).rooms@[i as int].model(), seq![update@]),
            ),
    {
        let ghost old_rooms = self.rooms@;
        let ghost old_rd = self.rooms@[i as int];
        let last = self.rooms[i].info.last_seq;
        let new_seq = last + 1;
        let room = &mut self.rooms[i];
        room.updates.push(UpdateEntry { seq: new_seq, bytes: clone_bytes(update) });
        room.info.last_seq = new_seq;
        proof {
            let new_rd = self.rooms@[i as int];
            assert(self.rooms@ =~= old_rooms.update(i as int, new_rd));
            assert(new_rd.wf()) by {
                assert(forall|j: int|
                    0 <= j < old_rd.updates@.len() ==> new_rd.updates@[j]
                        == #[trigger] old_rd.updates@[j]);
            }
            assert(new_rd.model().updates =~= append_model(old_rd.model(), seq![update@]).updates);
            assert(new_rd.model().snapshots == append_model(old_rd.model(), seq![update@]).snapshots);
            assert(new_rd.model() == append_model(old_rd.model(), seq![update@]));
            lemma_rooms_update(old_rooms, i as int, new_rd);
            assert(has_id(old_rooms, old_rd.id()));
            lemma_id_index_unique(old_rooms, old_rd.id());
            assert(rooms_map(old_rooms)[old_rd.id()] == old_rd.model());
        }
        new_seq
    }

    /// The index of the room with this identifier, if it exists.
    fn find_room(&self, room_id: &str) -> (r: Option<usize>)
        ensures
            match r {
                Some(i) => i < self.rooms@.len() && self.rooms@[i as int].id() == room_id@,
                None => !has_id(self.rooms@, room_id@),
            },
    {
        let n = self.rooms.len();
        let mut i: usize = 0;
        while i < n
            invariant
                n == self.rooms@.len(),
                i <= n,
                forall|j: int| 0 <= j < i ==> (#[trigger] self.rooms@[j]).id() != room_id@,
            decreases n - i,
        {
            if str_eq(self.rooms[i].info.room_id.as_str(), room_id) {
                return Some(i);
            }
            i = i + 1;
        }
        None
    }
}

impl Storage for InMemoryStorage {
    // Beyond the interface's common contract, every method here also rules
    // out the driver-failure escape: this store has no driver, so the only
    // errors it returns are the ones the interface ties to the inputs.
    // Joined with the trait's conditions, success is forced wherever the
    // inputs allow it.
    closed spec fn model(&self) -> StoreModel {
        rooms_map(self.rooms@)
    }

    closed spec fn wf(&self) -> bool {
        &&& ids_distinct(self.rooms@)
        &&& forall|i: int| 0 <= i < self.rooms@.len() ==> (#[trigger] self.rooms@[i]).wf()
    }

    proof fn wf_bounded(&self) {
        assert forall|k: Seq<char>| rooms_map(self.rooms@).contains_key(k) implies (
        #[trigger] rooms_map(self.rooms@)[k]).updates.len() <= MAX_SEQ by {
            lemma_id_index_unique(self.rooms@, k);
            let i = id_index(self.rooms@, k);
            assert(self.rooms@[i].wf());
        }
    }

    fn room_exists(&self, room_id: &str) -> (r: Result<bool, Error>)
        ensures
            r is Ok,
    {
        match self.find_room(room_id) {
            Some(i) => {
                proof {
                    assert(self.rooms@[i as int].id() == room_id@);
                    assert(has_id(self.rooms@, room_id@));
                }
                Ok(true)
            },
            None => Ok(false),
        }
    }

    fn create_room(&mut self, room_id: &str, opts: CreateRoomOptions) -> (r: Result<(), Error>)
        ensures
            r matches Err(e) ==> e is AlreadyExists,
    {
        match self.find_room(room_id) {
            Some(i) => {
                proof {
                    assert(self.rooms@[i as int].id() == room_id@);
                    assert(has_id(self.rooms@, room_id@));
                }
                if opts.fail_if_exists {
                    Err(Error::AlreadyExists)
                } else {
                    Ok(())
                }
            },
            None => {
                let rd = RoomData {
                    info: RoomInfo {
                        room_id: room_id.to_owned(),
                        last_seq: 0,
                        latest_snapshot: None,
                    },
                    updates: Vec::new(),
                    snapshots: Vec::new(),
                };
                proof {
                    lemma_rooms_push(self.rooms@, rd);
                    assert(rd.model().updates =~= RoomModel::empty().updates);
                    assert forall|k: LogSeq| !(#[trigger] snap_has(rd.snapshots@, k)) by {
                        assert(rd.snapshots@.len() == 0);
                    }
                    assert(rd.model().snapshots =~= RoomModel::empty().snapshots);
                    assert(rd.model() == RoomModel::empty());
                }
                self.rooms.push(rd);
                Ok(())
            },
        }
    }

    fn delete_room(&mut self, room_id: &str) -> (r: Result<(), Error>)
        ensures
            r is Ok,
    {
        match self.find_room(room_id) {
            Some(i) => {
                proof {
                    lemma_rooms_remove(self.rooms@, i as int);
                }
                self.rooms.remove(i);
                Ok(())
            },
            None => {
                proof {
                    let m = rooms_map(self.rooms@);
                    assert(!m.contains_key(room_id@));
                    assert(m.remove(room_id@) =~= m);
                }
                Ok(())
            },
        }
    }

    fn list_rooms(&self) -> (r: Result<Vec<RoomInfo>, Error>)
        ensures
            r is Ok,
    {
        let n = self.rooms.len();
        let mut out: Vec<RoomInfo> = Vec::new();
        let mut i: usize = 0;
        while i < n
            invariant
                self.wf(),
                n == self.rooms@.len(),
                i <= n,
                out@.len() == i,
                forall|q: int|
                    0 <= q < i ==> (#[trigger] out@[q]).room_id@ == self.rooms@[q].id()
                        && room_info_matches(self.rooms@[q].id(), self.rooms@[q].model(), out@[q]),
            decreases n - i,
        {
            let info = &self.rooms[i].info;
            let entry = RoomInfo {
                room_id: info.room_id.clone(),
                last_seq: info.last_seq,
                latest_snapshot: info.latest_snapshot,
            };
            proof {
                lemma_info_matches(self.rooms@[i as int]);
            }
            out.push(entry);
            i = i + 1;
        }
        proof {
            assert forall|q: int| 0 <= q < out@.len() implies rooms_map(self.rooms@).contains_key(
                (#[trigger] out@[q]).room_id@,
            ) && room_info_matches(
                out@[q].room_id@,
                rooms_map(self.rooms@)[out@[q].room_id@],
                out@[q],
            ) by {
                assert(self.rooms@[q].id() == out@[q].room_id@);
                assert(has_id(self.rooms@, out@[q].room_id@));
                lemma_id_index_unique(self.rooms@, out@[q].room_id@);
                assert(id_index(self.rooms@, out@[q].room_id@) == q);
            }
            assert forall|k: Seq<char>| rooms_map(self.rooms@).contains_key(k) implies exists|q: int|
                0 <= q < out@.len() && (#[trigger] out@[q]).room_id@ == k by {
                lemma_id_index_unique(self.rooms@, k);
                let p = id_index(self.rooms@, k);
                assert(out@[p].room_id@ == k);
            }
            assert forall|p: int, q: int|
                0 <= p < q < out@.len() implies (#[trigger] out@[p]).room_id@
                != (#[trigger] out@[q]).room_id@ by {
                assert(self.rooms@[p].id() != self.rooms@[q].id());
            }
            assert(crate::rooms::storage::room_listing_matches(self.model(), out@));
        }
        Ok(out)
    }

    fn get_room_info(&self, room_id: &str) -> (r: Result<Option<RoomInfo>, Error>)
        ensures
            r is Ok,
    {
        match self.find_room(room_id) {
            Some(i) => {
                proof {
                    assert(self.rooms@[i as int].id() == room_id@);
                    assert(has_id(self.rooms@, room_id@));
                    lemma_id_index_unique(self.rooms@, room_id@);
                    lemma_info_matches(self.rooms@[i as int]);
                }
                let info = &self.rooms[i].info;
                Ok(
                    Some(
                        RoomInfo {
                            room_id: info.room_id.clone(),
                            last_seq: info.last_seq,
                            latest_snapshot: info.latest_snapshot,
                        },
                    ),
                )
            },
            None => Ok(None),
        }
    }

    fn append_update(&mut self, room_id: &str, update: &[u8]) -> (r: Result<LogSeq, Error>)
        ensures
            r matches Err(e) ==> e is NotFound || e is InvalidArgument,
    {
        let i = match self.find_room(room_id) {
            Some(i) => i,
            None => {
                return Err(Error::NotFound);
            },
        };
        proof {
            assert(self.rooms@[i as int].id() == room_id@);
            assert(has_id(self.rooms@, room_id@));
            lemma_id_index_unique(self.rooms@, room_id@);
        }
        let last = self.rooms[i].info.last_seq;
        if last >= MAX_SEQ {
            return Err(Error::InvalidArgument("sequence numbers exhausted".to_owned()));
        }
        let seq = self.append_one(i, update);
        Ok(seq)
    }

    fn append_updates(&mut self, room_id: &str, updates: &[Vec<u8>]) -> (r: Result<
        (LogSeq, LogSeq),
        Error,
    >)
        ensures
            r matches Err(e) ==> e is NotFound || e is InvalidArgument,
    {
        let i = match self.find_room(room_id) {
            Some(i) => i,
            None => {
                return Err(Error::NotFound);
            },
        };
        proof {
            assert(self.rooms@[i as int].id() == room_id@);
            assert(has_id(self.rooms@, room_id@));
            lemma_id_index_unique(self.rooms@, room_id@);
        }
        let n = updates.len();
        if n == 0 {
            return Err(Error::InvalidArgument("updates must be non-empty".to_owned()));
        }
        let last = self.rooms[i].info.last_seq;
        if n as u64 > MAX_SEQ - last {
            return Err(Error::InvalidArgument("too many updates".to_owned()));
        }
        let first = last + 1;
        let ghost k = room_id@;
        let ghost m0 = self.model();
        let ghost rm0 = self.rooms@[i as int].model();
        let ghost items = updates.deep_view();
        let mut j: usize = 0;
        while j < n
            invariant
                self.wf(),
                j <= n,
                n == updates@.len(),
                n as u64 <= MAX_SEQ - last,
                i < self.rooms@.len(),
                self.rooms@[i as int].id() == k,
                items == updates.deep_view(),
                items.len() == n,
                rm0.updates.len() == last,
                self.rooms@[i as int].updates@.len() == last + j,
                self.model() =~= m0.insert(k, append_model(rm0, items.take(j as int))),
            decreases n - j,
        {
            let ghost m_pre = self.model();
            let ghost rd_pre = self.rooms@[i as int].model();
            proof {
                assert(has_id(self.rooms@, k));
                lemma_id_index_unique(self.rooms@, k);
                assert(m_pre[k] == rd_pre);
                assert(m_pre[k] == append_model(rm0, items.take(j as int)));
            }
            self.append_one(i, updates[j].as_slice());
            proof {
                assert(items[j as int] == updates@[j as int]@);
                assert(rd_pre == append_model(rm0, items.take(j as int)));
                assert(items.take(j as int).push(items[j as int]) =~= items.take(j + 1));
                assert(append_model(rd_pre, seq![items[j as int]]).updates =~= append_model(
                    rm0,
                    items.take(j + 1),
                ).updates);
                assert(append_model(rd_pre, seq![items[j as int]]) == append_model(
                    rm0,
                    items.take(j + 1),
                ));
                assert(self.model() =~= m0.insert(k, append_model(rm0, items.take(j + 1))));
            }
            j = j + 1;
        }
        proof {
            assert(items.take(n as int) =~= items);
            assert(self.model() =~= m0.insert(k, append_model(rm0, items)));
            assert(m0[k] == rm0);
        }
        Ok((first, last + n as u64))
    }

    fn load_updates(&self, room_id: &str, opts: LoadUpdatesOptions) -> (r: Result<
        Vec<UpdateEntry>,
        Error,
    >)
        ensures
            r matches Err(e) ==> e is NotFound,
    {
        let i = match self.find_room(room_id) {
            Some(i) => i,
            None => {
                return Err(Error::NotFound);
            },
        };
        proof {
            assert(self.rooms@[i as int].id() == room_id@);
            assert(has_id(self.rooms@, room_id@));
            lemma_id_index_unique(self.rooms@, room_id@);
        }
        let ghost rm = self.model()[room_id@];
        let last = self.rooms[i].info.last_seq;
        let lo: u64 = match opts.from {
            Some(f) => if f < 1 {
                1
            } else {
                f
            },
            None => 1,
        };
        let hi: u64 = match opts.to {
            Some(t) => if t <= last {
                t
            } else {
                last
            },
            None => last,
        };
        let total = self.rooms[i].updates.len();
        let mut out: Vec<UpdateEntry> = Vec::new();
        if lo <= hi {
            let mut s: u64 = lo;
            while s <= hi
                invariant
                    self.wf(),
                    i < self.rooms@.len(),
                    self.rooms@[i as int].id() == room_id@,
                    rm == self.rooms@[i as int].model(),
                    1 <= lo <= s <= hi + 1,
                    hi <= last,
                    last == self.rooms@[i as int].updates@.len(),
                    total == self.rooms@[i as int].updates@.len(),
                    out@.len() == s - lo,
                    forall|q: int|
                        0 <= q < out@.len() ==> (#[trigger] out@[q]).seq == lo + q && out@[q].bytes@
                            == rm.update_at(lo + q),
                decreases hi + 1 - s,
            {
                proof {
                    assert(s - 1 < total);
                }
                let idx = (s - 1) as usize;
                let entry = UpdateEntry {
                    seq: s,
                    bytes: clone_bytes(self.rooms[i].updates[idx].bytes.as_slice()),
                };
                out.push(entry);
                s = s + 1;
            }
        }
        proof {
            assert(rooms_map(self.rooms@)[room_id@] == self.rooms@[id_index(
                self.rooms@,
                room_id@,
            ) as int].model());
        }
        Ok(out)
    }

    fn store_snapshot(&mut self, room_id: &str, snapshot: Snapshot) -> (r: Result<(), Error>)
        ensures
            r matches Err(e) ==> e is NotFound,
    {
        let i = match self.find_room(room_id) {
            Some(i) => i,
            None => {
                return Err(Error::NotFound);
            },
        };
        proof {
            assert(self.rooms@[i as int].id() == room_id@);
            assert(has_id(self.rooms@, room_id@));
            lemma_id_index_unique(self.rooms@, room_id@);
        }
        let ghost old_rooms = self.rooms@;
        let ghost old_rd = self.rooms@[i as int];
        let k = snapshot.covered_through;
        let n = self.rooms[i].snapshots.len();
        let mut pos: usize = 0;
        while pos < n && self.rooms[i].snapshots[pos].covered_through < k
            invariant
                self.wf(),
                i < self.rooms@.len(),
                n == self.rooms@[i as int].snapshots@.len(),
                pos <= n,
                forall|p: int|
                    0 <= p < pos ==> (#[trigger] self.rooms@[i as int].snapshots@[p]).covered_through
                        < k,
            decreases n - pos,
        {
            pos = pos + 1;
        }
        let replace = pos < n && self.rooms[i].snapshots[pos].covered_through == k;
        let room = &mut self.rooms[i];
        if replace {
            room.snapshots[pos] = Snapshot { covered_through: k, bytes: snapshot.bytes };
        } else {
            room.snapshots.insert(pos, Snapshot { covered_through: k, bytes: snapshot.bytes });
        }
        let last_idx = room.snapshots.len() - 1;
        let last_ct = room.snapshots[last_idx].covered_through;
        let last_sz = room.snapshots[last_idx].bytes.len() as u64;
        room.info.latest_snapshot = Some(
            SnapshotInfo { covered_through: last_ct, size_bytes: last_sz },
        );
        proof {
            let new_rd = self.rooms@[i as int];
            let snap = Snapshot { covered_through: k, bytes: snapshot.bytes };
            if replace {
                lemma_snaps_replace(old_rd.snapshots@, pos as int, snap);
                assert(new_rd.snapshots@ =~= old_rd.snapshots@.update(pos as int, snap));
            } else {
                assert forall|p: int|
                    pos <= p < old_rd.snapshots@.len() implies (#[trigger] old_rd.snapshots@[p]).covered_through
                    > k by {
                    if p > pos {
                        assert(old_rd.snapshots@[pos as int].covered_through
                            < old_rd.snapshots@[p].covered_through);
                    }
                }
                lemma_snaps_insert(old_rd.snapshots@, pos as int, snap);
                assert(new_rd.snapshots@ =~= old_rd.snapshots@.insert(pos as int, snap));
            }
            assert(new_rd.wf());
            assert(new_rd.model().updates =~= old_rd.model().updates);
            assert(new_rd.model() == store_snapshot_model(old_rd.model(), k, snapshot.bytes@));
            lemma_rooms_update(old_rooms, i as int, new_rd);
        }
        Ok(())
    }

    fn load_snapshot_at(&self, room_id: &str, covered_through: LogSeq) -> (r: Result<
        Option<Snapshot>,
        Error,
    >)
        ensures
            r matches Err(e) ==> e is NotFound,
    {
        let i = match self.find_room(room_id) {
            Some(i) => i,
            None => {
                return Err(Error::NotFound);
            },
        };
        proof {
            assert(self.rooms@[i as int].id() == room_id@);
            assert(has_id(self.rooms@, room_id@));
            lemma_id_index_unique(self.rooms@, room_id@);
        }
        let n = self.rooms[i].snapshots.len();
        let mut j: usize = 0;
        while j < n
            invariant
                self.wf(),
                i < self.rooms@.len(),
                self.rooms@[i as int].id() == room_id@,
                n == self.rooms@[i as int].snapshots@.len(),
                j <= n,
                forall|p: int|
                    0 <= p < j ==> (#[trigger] self.rooms@[i as int].snapshots@[p]).covered_through
                        != covered_through,
            decreases n - j,
        {
            if self.rooms[i].snapshots[j].covered_through == covered_through {
                proof {
                    let s = self.rooms@[i as int].snapshots@;
                    assert(snap_has(s, covered_through));
                    lemma_snap_index_unique(s, covered_through);
                    assert(snap_index(s, covered_through) == j);
                }
                let bytes = clone_bytes(self.rooms[i].snapshots[j].bytes.as_slice());
                return Ok(Some(Snapshot { covered_through, bytes }));
            }
            j = j + 1;
        }
        proof {
            let s = self.rooms@[i as int].snapshots@;
            assert(!snap_has(s, covered_through));
        }
        Ok(None)
    }

    fn load_snapshot_best(&self, room_id: &str, max_covered_through: Option<LogSeq>) -> (r: Result<
        Option<Snapshot>,
        Error,
    >)
        ensures
            r matches Err(e) ==> e is NotFound,
    {
        let i = match self.find_room(room_id) {
            Some(i) => i,
            None => {
                return Err(Error::NotFound);
            },
        };
        proof {
            assert(self.rooms@[i as int].id() == room_id@);
            assert(has_id(self.rooms@, room_id@));
            lemma_id_index_unique(self.rooms@, room_id@);
        }
        let ghost rm = self.model()[room_id@];
        let n = self.rooms[i].snapshots.len();
        // Scan from the end for the greatest covered_through within the bound.
        let mut j: usize = n;
        if let Some(m) = max_covered_through {
            while j > 0 && self.rooms[i].snapshots[j - 1].covered_through > m
                invariant
                    self.wf(),
                    i < self.rooms@.len(),
                    self.rooms@[i as int].id() == room_id@,
                    rm == self.rooms@[i as int].model(),
                    n == self.rooms@[i as int].snapshots@.len(),
                    j <= n,
                    max_covered_through == Some(m),
                    forall|p: int|
                        j <= p < n ==> !rm.snapshot_within(
                            (#[trigger] self.rooms@[i as int].snapshots@[p]).covered_through,
                            max_covered_through,
                        ),
                decreases j,
            {
                j = j - 1;
            }
        }
        if j == 0 {
            proof {
                let s = self.rooms@[i as int].snapshots@;
                assert forall|kk: LogSeq| !rm.snapshot_within(kk, max_covered_through) by {
                    if rm.snapshots.dom().contains(kk) {
                        let p = choose|p: int|
                            0 <= p < s.len() && (#[trigger] s[p]).covered_through == kk;
                        assert(!rm.snapshot_within(s[p].covered_through, max_covered_through));
                    }
                }
            }
            return Ok(None);
        }
        let best = j - 1;
        proof {
            let s = self.rooms@[i as int].snapshots@;
            assert(snap_has(s, s[best as int].covered_through));
            lemma_snap_index_unique(s, s[best as int].covered_through);
            assert(snap_index(s, s[best as int].covered_through) == best);
            assert(rm.snapshot_within(s[best as int].covered_through, max_covered_through));
            assert forall|kk: LogSeq|
                rm.snapshot_within(kk, max_covered_through) implies kk <= s[best as int].covered_through by {
                let p = choose|p: int| 0 <= p < s.len() && (#[trigger] s[p]).covered_through == kk;
                if p > best {
                    assert(!rm.snapshot_within(s[p].covered_through, max_covered_through));
                } else if p < best {
                    assert(s[p].covered_through < s[best as int].covered_through);
                }
            }
        }
        let ct = self.rooms[i].snapshots[best].covered_through;
        let bytes = clone_bytes(self.rooms[i].snapshots[best].bytes.as_slice());
        Ok(Some(Snapshot { covered_through: ct, bytes }))
    }

    fn list_snapshots(&self, room_id: &str) -> (r: Result<Vec<SnapshotInfo>, Error>)
        ensures
            r matches Err(e) ==> e is NotFound,
    {
        let i = match self.find_room(room_id) {
            Some(i) => i,
            None => {
                return Err(Error::NotFound);
            },
        };
        proof {
            assert(self.rooms@[i as int].id() == room_id@);
            assert(has_id(self.rooms@, room_id@));
            lemma_id_index_unique(self.rooms@, room_id@);
        }
        let ghost rm = self.model()[room_id@];
        proof {
            assert(id_index(self.rooms@, room_id@) == i);
            assert(rm == self.rooms@[i as int].model());
        }
        let n = self.rooms[i].snapshots.len();
        let mut out: Vec<SnapshotInfo> = Vec::new();
        let mut j: usize = 0;
        while j < n
            invariant
                self.wf(),
                i < self.rooms@.len(),
                self.rooms@[i as int].id() == room_id@,
                rm == self.rooms@[i as int].model(),
                n == self.rooms@[i as int].snapshots@.len(),
                j <= n,
                out@.len() == j,
                forall|q: int|
                    0 <= q < j ==> (#[trigger] out@[q]).covered_through
                        == self.rooms@[i as int].snapshots@[q].covered_through && out@[q].size_bytes
                        == self.rooms@[i as int].snapshots@[q].bytes@.len(),
            decreases n - j,
        {
            let snap = &self.rooms[i].snapshots[j];
            out.push(
                SnapshotInfo {
                    covered_through: snap.covered_through,
                    size_bytes: snap.bytes.len() as u64,
                },
            );
            j = j + 1;
        }
        proof {
            let s = self.rooms@[i as int].snapshots@;
            assert forall|q: int| 0 <= q < out@.len() implies crate::rooms::storage::snapshot_info_matches(
                rm,
                (#[trigger] out@[q]).covered_through,
                out@[q],
            ) by {
                assert(s[q].covered_through == out@[q].covered_through);
                assert(snap_has(s, out@[q].covered_through));
                lemma_snap_index_unique(s, out@[q].covered_through);
                assert(snap_index(s, out@[q].covered_through) == q);
            }
            assert forall|kk: LogSeq| rm.snapshots.dom().contains(kk) implies exists|q: int|
                0 <= q < out@.len() && (#[trigger] out@[q]).covered_through == kk by {
                lemma_snap_index_unique(s, kk);
                let p = snap_index(s, kk);
                assert(out@[p].covered_through == kk);
            }
            assert forall|p: int, q: int|
                0 <= p < q < out@.len() implies (#[trigger] out@[p]).covered_through
                < (#[trigger] out@[q]).covered_through by {
                assert(s[p].covered_through < s[q].covered_through);
            }
            assert(crate::rooms::storage::snapshot_listing_matches(rm, out@));
        }
        Ok(out)
    }
}

} // verus!

