//! The room manager: admission, materialization, persistence pipeline and
//! eviction, driven over the in-memory storage with real CRDT update blobs.

use dionysus::rooms::error::Error;
use dionysus::rooms::in_memory::InMemoryStorage;
use dionysus::rooms::manager::RoomManager;
use dionysus::rooms::storage::{CreateRoomOptions, LoadUpdatesOptions, Storage};

use yrs::updates::decoder::Decode;
use yrs::{Doc, GetString, ReadTxn, Text, Transact};

/// A CRDT update blob that inserts `text` at the end of the `codemirror`
/// text root, produced by a throwaway source document.
fn text_update(text: &str) -> Vec<u8> {
    let doc = Doc::new();
    let txt = doc.get_or_insert_text("codemirror");
    {
        let mut txn = doc.transact_mut();
        txt.push(&mut txn, text);
    }
    let bytes = doc
        .transact()
        .encode_state_as_update_v1(&yrs::StateVector::default());
    bytes
}

/// The contents of the `codemirror` text root after applying every blob, in
/// order, to an empty document.
fn replay_text(blobs: &[Vec<u8>]) -> String {
    let doc = Doc::new();
    let txt = doc.get_or_insert_text("codemirror");
    {
        let mut txn = doc.transact_mut();
        for b in blobs {
            txn.apply_update(yrs::Update::decode_v1(b).unwrap()).unwrap();
        }
    }
    let text = txt.get_string(&doc.transact());
    text
}

fn fresh_manager(cadence: u64, queue_capacity: usize) -> RoomManager<InMemoryStorage> {
    RoomManager::new(InMemoryStorage::new(), 32, cadence, queue_capacity)
}

fn all_updates(mgr: &RoomManager<InMemoryStorage>, room: &str) -> Vec<Vec<u8>> {
    mgr.storage()
        .load_updates(room, LoadUpdatesOptions { from: None, to: None })
        .unwrap()
        .into_iter()
        .map(|e| e.bytes)
        .collect()
}

#[test]
fn fresh_room_first_update_lands_in_log() {
    let mut mgr = fresh_manager(100, 1024);
    mgr.create_room("r1").unwrap();
    mgr.connect("r1").unwrap();
    let u1 = text_update("hello");
    assert!(mgr.apply_update("r1", &u1).unwrap());
    // Peer B connects: same live room, its initial sync sees "hello".
    mgr.connect("r1").unwrap();
    let live = mgr.get_live("r1").unwrap();
    assert_eq!(live.connection_count(), 2);
    assert_eq!(live.doc_update_count(), 1);
    assert_eq!(replay_text(&[live.encode_doc_state()]), "hello");
    assert_eq!(mgr.drain_persistence("r1"), 1);
    let logged = all_updates(&mgr, "r1");
    assert_eq!(logged, vec![u1]);
    let info = mgr.storage().get_room_info("r1").unwrap().unwrap();
    assert_eq!(info.last_seq, 1);
}

#[test]
fn connect_unknown_room_fails_not_found() {
    let mut mgr = fresh_manager(100, 1024);
    let err = mgr.connect("missing").unwrap_err();
    assert!(matches!(err, Error::NotFound));
    assert!(mgr.get_live("missing").is_none());
}

#[test]
fn create_room_twice_fails_already_exists() {
    let mut mgr = fresh_manager(100, 1024);
    mgr.create_room("r").unwrap();
    assert!(matches!(mgr.create_room("r").unwrap_err(), Error::AlreadyExists));
}

#[test]
fn snapshot_cadence_triggers_once_after_three() {
    let mut mgr = fresh_manager(3, 1024);
    mgr.create_room("r").unwrap();
    mgr.connect("r").unwrap();
    for i in 0..4 {
        let u = text_update(&format!("edit{i} "));
        mgr.apply_update("r", &u).unwrap();
    }
    assert_eq!(mgr.drain_persistence("r"), 4);
    let snaps = mgr.storage().list_snapshots("r").unwrap();
    assert_eq!(snaps.len(), 1);
    assert_eq!(snaps[0].covered_through, 3);
}

#[test]
fn eviction_and_reload_replays_log() {
    let mut mgr = fresh_manager(100, 1024);
    mgr.create_room("r").unwrap();
    mgr.connect("r").unwrap();
    let u = text_update("persist me");
    mgr.apply_update("r", &u).unwrap();
    // The final disconnect drains the queue, then evicts the live room.
    mgr.disconnect("r");
    assert!(mgr.get_live("r").is_none());
    assert_eq!(all_updates(&mgr, "r"), vec![u]);
    assert!(mgr.storage().list_snapshots("r").unwrap().is_empty());
    mgr.connect("r").unwrap();
    let live = mgr.get_live("r").unwrap();
    assert_eq!(live.connection_count(), 1);
    assert_eq!(live.doc_update_count(), 1);
    assert_eq!(replay_text(&[live.encode_doc_state()]), "persist me");
}

#[test]
fn snapshot_accelerated_reload_reads_snapshot_plus_tail() {
    let mut mgr = fresh_manager(100, 1024);
    mgr.create_room("r").unwrap();
    mgr.connect("r").unwrap();
    for i in 0..150 {
        let u = text_update(&format!("{i} "));
        mgr.apply_update("r", &u).unwrap();
    }
    assert_eq!(mgr.drain_persistence("r"), 150);
    mgr.disconnect("r");
    let snaps = mgr.storage().list_snapshots("r").unwrap();
    assert_eq!(snaps.len(), 1);
    assert_eq!(snaps[0].covered_through, 100);
    mgr.connect("r").unwrap();
    // One snapshot blob plus exactly the 50 log entries past it.
    assert_eq!(mgr.get_live("r").unwrap().doc_update_count(), 51);
}

#[test]
fn back_pressure_drops_beyond_queue_capacity() {
    let mut mgr = fresh_manager(100, 1);
    mgr.create_room("r").unwrap();
    mgr.connect("r").unwrap();
    let mut queued = 0;
    for i in 0..100 {
        let u = text_update(&format!("{i} "));
        if mgr.apply_update("r", &u).unwrap() {
            queued += 1;
        }
    }
    // Every peer-visible update reached the live doc; only one survived the
    // full channel.
    assert_eq!(queued, 1);
    assert_eq!(mgr.get_live("r").unwrap().doc_update_count(), 100);
    assert_eq!(mgr.drain_persistence("r"), 1);
    assert_eq!(all_updates(&mgr, "r").len(), 1);
}

#[test]
fn live_room_is_shared_and_counts_connections() {
    let mut mgr = fresh_manager(100, 1024);
    mgr.create_room("r").unwrap();
    let n = 7;
    for _ in 0..n {
        mgr.connect("r").unwrap();
    }
    assert_eq!(mgr.get_live("r").unwrap().connection_count(), n);
    for i in (1..n).rev() {
        mgr.disconnect("r");
        assert_eq!(mgr.get_live("r").unwrap().connection_count(), i);
    }
    mgr.disconnect("r");
    assert!(mgr.get_live("r").is_none());
}

#[test]
fn connect_after_final_disconnect_materializes_fresh() {
    let mut mgr = fresh_manager(100, 1024);
    mgr.create_room("r").unwrap();
    mgr.connect("r").unwrap();
    mgr.connect("r").unwrap();
    mgr.disconnect("r");
    // Not the last connection: the live room stays, count >= 1.
    assert_eq!(mgr.get_live("r").unwrap().connection_count(), 1);
    mgr.disconnect("r");
    assert!(mgr.get_live("r").is_none());
    mgr.connect("r").unwrap();
    let live = mgr.get_live("r").unwrap();
    assert_eq!(live.connection_count(), 1);
}

#[test]
fn round_trip_snapshot_is_equivalent_to_log_replay() {
    let mut mgr = fresh_manager(100, 1024);
    mgr.create_room("r").unwrap();
    mgr.connect("r").unwrap();
    let blobs: Vec<Vec<u8>> = (0..5).map(|i| text_update(&format!("w{i} "))).collect();
    for b in &blobs {
        mgr.apply_update("r", b).unwrap();
    }
    assert_eq!(mgr.drain_persistence("r"), 5);
    let loaded = all_updates(&mgr, "r");
    assert_eq!(loaded, blobs);
    // Encode the merged state, re-apply it to an empty doc, and compare
    // with a doc built straight from the log: equal by CRDT merge
    // equivalence (same text, same re-encoded state).
    let snapshot = mgr.get_live("r").unwrap().encode_doc_state();
    let from_snapshot = replay_text(&[snapshot.clone()]);
    let from_log = replay_text(&loaded);
    assert_eq!(from_snapshot, from_log);
    let doc_a = {
        let doc = Doc::new();
        doc.get_or_insert_text("codemirror");
        let mut txn = doc.transact_mut();
        txn.apply_update(yrs::Update::decode_v1(&snapshot).unwrap()).unwrap();
        let bytes = txn.encode_state_as_update_v1(&yrs::StateVector::default());
        bytes
    };
    let doc_b = {
        let doc = Doc::new();
        doc.get_or_insert_text("codemirror");
        let mut txn = doc.transact_mut();
        for b in &loaded {
            txn.apply_update(yrs::Update::decode_v1(b).unwrap()).unwrap();
        }
        let bytes = txn.encode_state_as_update_v1(&yrs::StateVector::default());
        bytes
    };
    assert_eq!(doc_a, doc_b);
}

#[test]
fn decodable_but_invalid_update_is_rejected_not_applied() {
    let mut mgr = fresh_manager(100, 1024);
    mgr.create_room("r").unwrap();
    mgr.connect("r").unwrap();
    // A legitimate update from a peer with the fixed client id 1: its
    // content lands in the block with id (1, 0).
    let first = {
        let doc = Doc::with_client_id(1);
        let txt = doc.get_or_insert_text("codemirror");
        {
            let mut txn = doc.transact_mut();
            txt.push(&mut txn, "hello");
        }
        let bytes = doc
            .transact()
            .encode_state_as_update_v1(&yrs::StateVector::default());
        bytes
    };
    mgr.apply_update("r", &first).unwrap();
    assert_eq!(mgr.get_live("r").unwrap().doc_update_count(), 1);
    // A hand-built v1 blob that decodes fine, but whose single item names
    // the first update's content block as its parent; the CRDT library
    // rejects integrating under a parent that is no shared type.  The
    // library surfaces the rejection as an error instead of panicking.
    //
    // Layout: 1 client section; 1 block; client 99, clock 0; info byte 4
    // (string content, no origins); parent given as the id (1, 1); the one
    // character "x"; empty delete set.
    let rejected_blob: Vec<u8> = vec![1, 1, 99, 0, 4, 0, 1, 1, 1, 120, 0];
    assert!(yrs::Update::decode_v1(&rejected_blob).is_ok());
    let err = mgr.apply_update("r", &rejected_blob).unwrap_err();
    assert!(matches!(err, Error::DecodingError));
    // The replica model is unchanged and the room keeps serving; only the
    // first update reaches the durable log.
    assert_eq!(mgr.get_live("r").unwrap().doc_update_count(), 1);
    assert!(mgr.apply_update("r", &text_update("still alive")).is_ok());
    assert_eq!(mgr.drain_persistence("r"), 2);
}

#[test]
fn apply_update_rejects_malformed_blob() {
    let mut mgr = fresh_manager(100, 1024);
    mgr.create_room("r").unwrap();
    mgr.connect("r").unwrap();
    let err = mgr.apply_update("r", &[0xff, 0xfe, 0xfd]).unwrap_err();
    assert!(matches!(err, Error::DecodingError));
    assert_eq!(mgr.get_live("r").unwrap().doc_update_count(), 0);
    let err = mgr.apply_update("unknown", &text_update("x")).unwrap_err();
    assert!(matches!(err, Error::NotFound));
}

#[test]
fn connect_fails_on_malformed_logged_update() {
    // A blob that is not a CRDT update reaches the log beside the manager.
    let mut mgr = {
        let mut storage = InMemoryStorage::new();
        storage
            .create_room("r", CreateRoomOptions { fail_if_exists: false })
            .unwrap();
        storage.append_update("r", &[0xff, 0xfe]).unwrap();
        RoomManager::new(storage, 32, 100, 1024)
    };
    let err = mgr.connect("r").unwrap_err();
    assert!(matches!(err, Error::DecodingError));
    assert!(mgr.get_live("r").is_none());
}

#[test]
fn demo_room_materializes_from_seeded_update() {
    let mut mgr = fresh_manager(100, 1024);
    mgr.connect("demo-room-1").unwrap();
    let live = mgr.get_live("demo-room-1").unwrap();
    assert_eq!(live.doc_update_count(), 1);
    let text = replay_text(&[live.encode_doc_state()]);
    assert!(text.contains("BRICK"));
}
