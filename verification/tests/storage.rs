//! The in-memory storage implementation, exercised through the `Storage`
//! interface.

use dionysus::rooms::error::Error;
use dionysus::rooms::in_memory::InMemoryStorage;
use dionysus::rooms::storage::{
    CreateRoomOptions, LoadUpdatesOptions, Snapshot, Storage,
};

fn opts_default() -> CreateRoomOptions {
    CreateRoomOptions { fail_if_exists: false }
}

fn range(from: Option<u64>, to: Option<u64>) -> LoadUpdatesOptions {
    LoadUpdatesOptions { from, to }
}

#[test]
fn new_seeds_demo_room() {
    let s = InMemoryStorage::new();
    assert!(s.room_exists("demo-room-1").unwrap());
    let info = s.get_room_info("demo-room-1").unwrap().unwrap();
    assert_eq!(info.room_id, "demo-room-1");
    assert_eq!(info.last_seq, 1);
    assert!(info.latest_snapshot.is_none());
    let updates = s.load_updates("demo-room-1", range(None, None)).unwrap();
    assert_eq!(updates.len(), 1);
    assert_eq!(updates[0].seq, 1);
    assert!(!updates[0].bytes.is_empty());
}

#[test]
fn create_room_is_idempotent() {
    let mut s = InMemoryStorage::new();
    s.create_room("r", opts_default()).unwrap();
    s.create_room("r", opts_default()).unwrap();
    let info = s.get_room_info("r").unwrap().unwrap();
    assert_eq!(info.last_seq, 0);
}

#[test]
fn create_room_fail_if_exists() {
    let mut s = InMemoryStorage::new();
    s.create_room("r", opts_default()).unwrap();
    let err = s
        .create_room("r", CreateRoomOptions { fail_if_exists: true })
        .unwrap_err();
    assert!(matches!(err, Error::AlreadyExists));
}

#[test]
fn append_update_assigns_contiguous_seqs() {
    let mut s = InMemoryStorage::new();
    s.create_room("r", opts_default()).unwrap();
    assert_eq!(s.append_update("r", b"a").unwrap(), 1);
    assert_eq!(s.append_update("r", b"b").unwrap(), 2);
    assert_eq!(s.append_update("r", b"c").unwrap(), 3);
    assert_eq!(s.get_room_info("r").unwrap().unwrap().last_seq, 3);
}

#[test]
fn append_update_unknown_room_fails() {
    let mut s = InMemoryStorage::new();
    let err = s.append_update("nope", b"a").unwrap_err();
    assert!(matches!(err, Error::NotFound));
}

#[test]
fn append_updates_batch_and_load_roundtrip() {
    let mut s = InMemoryStorage::new();
    s.create_room("r", opts_default()).unwrap();
    s.append_update("r", b"first").unwrap();
    let batch = vec![b"u1".to_vec(), b"u2".to_vec(), b"u3".to_vec()];
    let (first, last) = s.append_updates("r", &batch).unwrap();
    assert_eq!(first, 2);
    assert_eq!(last, 4);
    assert_eq!(last, first + batch.len() as u64 - 1);
    let loaded = s.load_updates("r", range(Some(first), Some(last))).unwrap();
    assert_eq!(loaded.len(), 3);
    for (i, entry) in loaded.iter().enumerate() {
        assert_eq!(entry.seq, first + i as u64);
        assert_eq!(entry.bytes, batch[i]);
    }
}

#[test]
fn append_updates_empty_batch_fails() {
    let mut s = InMemoryStorage::new();
    s.create_room("r", opts_default()).unwrap();
    let err = s.append_updates("r", &[]).unwrap_err();
    assert!(matches!(err, Error::InvalidArgument(_)));
}

#[test]
fn load_updates_ranges() {
    let mut s = InMemoryStorage::new();
    s.create_room("r", opts_default()).unwrap();
    for i in 0..5u8 {
        s.append_update("r", &[i]).unwrap();
    }
    let all = s.load_updates("r", range(None, None)).unwrap();
    assert_eq!(all.len(), 5);
    assert!(all.windows(2).all(|w| w[0].seq < w[1].seq));
    let mid = s.load_updates("r", range(Some(2), Some(4))).unwrap();
    assert_eq!(mid.iter().map(|e| e.seq).collect::<Vec<_>>(), vec![2, 3, 4]);
    assert_eq!(mid[0].bytes, vec![1]);
    let clipped = s.load_updates("r", range(Some(4), Some(100))).unwrap();
    assert_eq!(clipped.iter().map(|e| e.seq).collect::<Vec<_>>(), vec![4, 5]);
    let empty = s.load_updates("r", range(Some(7), None)).unwrap();
    assert!(empty.is_empty());
}

#[test]
fn store_snapshot_upserts_on_covered_through() {
    let mut s = InMemoryStorage::new();
    s.create_room("r", opts_default()).unwrap();
    s.append_update("r", b"a").unwrap();
    s.append_update("r", b"b").unwrap();
    s.store_snapshot("r", Snapshot { covered_through: 2, bytes: b"one".to_vec() })
        .unwrap();
    s.store_snapshot("r", Snapshot { covered_through: 2, bytes: b"two".to_vec() })
        .unwrap();
    let snap = s.load_snapshot_at("r", 2).unwrap().unwrap();
    assert_eq!(snap.covered_through, 2);
    assert_eq!(snap.bytes, b"two".to_vec());
    let listing = s.list_snapshots("r").unwrap();
    assert_eq!(listing.len(), 1);
    assert_eq!(listing[0].covered_through, 2);
    assert_eq!(listing[0].size_bytes, 3);
}

#[test]
fn load_snapshot_best_picks_greatest_within_bound() {
    let mut s = InMemoryStorage::new();
    s.create_room("r", opts_default()).unwrap();
    for k in [2u64, 5, 9] {
        s.store_snapshot("r", Snapshot { covered_through: k, bytes: vec![k as u8] })
            .unwrap();
    }
    let best = s.load_snapshot_best("r", None).unwrap().unwrap();
    assert_eq!(best.covered_through, 9);
    let bounded = s.load_snapshot_best("r", Some(6)).unwrap().unwrap();
    assert_eq!(bounded.covered_through, 5);
    assert_eq!(bounded.bytes, vec![5]);
    let exact = s.load_snapshot_best("r", Some(5)).unwrap().unwrap();
    assert_eq!(exact.covered_through, 5);
    assert!(s.load_snapshot_best("r", Some(1)).unwrap().is_none());
    assert!(s.load_snapshot_at("r", 3).unwrap().is_none());
}

#[test]
fn list_snapshots_ascending() {
    let mut s = InMemoryStorage::new();
    s.create_room("r", opts_default()).unwrap();
    for k in [9u64, 2, 5] {
        s.store_snapshot("r", Snapshot { covered_through: k, bytes: vec![0; k as usize] })
            .unwrap();
    }
    let listing = s.list_snapshots("r").unwrap();
    let keys: Vec<u64> = listing.iter().map(|i| i.covered_through).collect();
    assert_eq!(keys, vec![2, 5, 9]);
    let info = s.get_room_info("r").unwrap().unwrap();
    let latest = info.latest_snapshot.unwrap();
    assert_eq!(latest.covered_through, 9);
    assert_eq!(latest.size_bytes, 9);
}

#[test]
fn list_rooms_reports_every_room() {
    let mut s = InMemoryStorage::new();
    s.create_room("alpha", opts_default()).unwrap();
    s.create_room("beta", opts_default()).unwrap();
    s.append_update("alpha", b"x").unwrap();
    let rooms = s.list_rooms().unwrap();
    assert_eq!(rooms.len(), 3);
    let alpha = rooms.iter().find(|r| r.room_id == "alpha").unwrap();
    assert_eq!(alpha.last_seq, 1);
    assert!(rooms.iter().any(|r| r.room_id == "beta"));
    assert!(rooms.iter().any(|r| r.room_id == "demo-room-1"));
}

#[test]
fn delete_room_removes_everything() {
    let mut s = InMemoryStorage::new();
    s.create_room("r", opts_default()).unwrap();
    s.append_update("r", b"a").unwrap();
    s.store_snapshot("r", Snapshot { covered_through: 1, bytes: b"s".to_vec() })
        .unwrap();
    s.delete_room("r").unwrap();
    assert!(!s.room_exists("r").unwrap());
    assert!(s.get_room_info("r").unwrap().is_none());
    assert!(matches!(
        s.load_updates("r", range(None, None)).unwrap_err(),
        Error::NotFound
    ));
    s.delete_room("r").unwrap();
}

#[test]
fn interleaved_appenders_fill_contiguous_range() {
    let mut s = InMemoryStorage::new();
    s.create_room("r", opts_default()).unwrap();
    let mut seqs_a = Vec::new();
    let mut seqs_b = Vec::new();
    for i in 0..1000u32 {
        seqs_a.push(s.append_update("r", &i.to_be_bytes()).unwrap());
        seqs_b.push(s.append_update("r", &(1000 + i).to_be_bytes()).unwrap());
    }
    let mut all: Vec<u64> = seqs_a.iter().chain(seqs_b.iter()).copied().collect();
    all.sort_unstable();
    let expected: Vec<u64> = (1..=2000).collect();
    assert_eq!(all, expected);
    let loaded = s.load_updates("r", range(None, None)).unwrap();
    assert_eq!(loaded.len(), 2000);
    for (i, e) in loaded.iter().enumerate() {
        assert_eq!(e.seq, i as u64 + 1);
    }
}
