use kvs::codec::encode_record;
use kvs::directory::SegmentFile;
use kvs::disk::DiskOp;
use kvs::log::{build_index, Segment, SizeInfo};
use kvs::names::{parse_segment_name, segment_name};
use kvs::store::{segment_cap, BASE_SEGMENT_SIZE, COMPACTION_THRESHOLD};
use kvs::{KvStore, KvsEngine, KvsError};

fn open_empty() -> KvStore {
    KvStore::open(Vec::new()).unwrap()
}

fn get(store: &KvStore, key: &str) -> Option<String> {
    store.get(key.to_string()).unwrap()
}

fn set(store: &mut KvStore, key: &str, value: &str) {
    store.set(key.to_string(), value.to_string()).unwrap();
}

fn record(key: &str, value: &str) -> Vec<u8> {
    encode_record(&key.to_string(), &value.to_string()).unwrap()
}

/// Carries the operations out on a directory that is kept in memory.
fn carry_out(dir: &mut Vec<(String, Vec<u8>)>, ops: Vec<DiskOp>) {
    for op in ops {
        match op {
            DiskOp::Create { gen, seq } => {
                let name = segment_name(gen, seq);
                if !dir.iter().any(|f| f.0 == name) {
                    dir.push((name, Vec::new()));
                }
            }
            DiskOp::Append { gen, seq, bytes } => {
                let name = segment_name(gen, seq);
                let file = dir.iter_mut().find(|f| f.0 == name).unwrap();
                file.1.extend_from_slice(&bytes);
            }
            DiskOp::Remove { gen, seq } => {
                let name = segment_name(gen, seq);
                let before = dir.len();
                dir.retain(|f| f.0 != name);
                assert_eq!(dir.len() + 1, before);
            }
        }
    }
}

fn reopen(dir: &Vec<(String, Vec<u8>)>) -> KvStore {
    let files = dir
        .iter()
        .rev()
        .map(|f| SegmentFile { name: f.0.clone(), data: f.1.clone() })
        .collect();
    KvStore::open(files).unwrap()
}

#[test]
fn get_on_an_empty_store_gives_none() {
    let store = open_empty();
    assert!(matches!(store.get("k".to_string()), Ok(None)));
}

#[test]
fn get_gives_what_was_set() {
    let mut store = open_empty();
    assert!(matches!(store.set("k".to_string(), "v1".to_string()), Ok(())));
    assert_eq!(store.get("k".to_string()).unwrap(), Some("v1".to_string()));
}

#[test]
fn set_overwrites() {
    let mut store = open_empty();
    set(&mut store, "k", "v1");
    set(&mut store, "k", "v2");
    assert_eq!(store.get("k".to_string()).unwrap(), Some("v2".to_string()));
}

#[test]
fn remove_then_get_gives_none_and_second_remove_fails() {
    let mut store = open_empty();
    set(&mut store, "k", "v");
    assert!(matches!(store.remove("k".to_string()), Ok(())));
    assert!(matches!(store.get("k".to_string()), Ok(None)));
    assert!(matches!(store.remove("k".to_string()), Err(KvsError::KeyNotFound)));
}

#[test]
fn remove_of_a_key_never_set_fails() {
    let mut store = open_empty();
    set(&mut store, "other", "v");
    assert!(matches!(store.remove("k".to_string()), Err(KvsError::KeyNotFound)));
    assert_eq!(get(&store, "other"), Some("v".to_string()));
}

#[test]
fn set_after_remove_brings_the_key_back() {
    let mut store = open_empty();
    set(&mut store, "k", "v1");
    store.remove("k".to_string()).unwrap();
    set(&mut store, "k", "v2");
    assert_eq!(get(&store, "k"), Some("v2".to_string()));
}

#[test]
fn other_keys_keep_their_values() {
    let mut store = open_empty();
    set(&mut store, "a", "1");
    set(&mut store, "b", "2");
    set(&mut store, "a", "3");
    store.remove("b".to_string()).unwrap();
    assert_eq!(get(&store, "a"), Some("3".to_string()));
    assert_eq!(get(&store, "b"), None);
}

#[test]
fn empty_key_is_refused() {
    let mut store = open_empty();
    assert!(matches!(store.set(String::new(), "v".to_string()), Err(KvsError::InvalidKey)));
    assert!(matches!(store.get(String::new()), Ok(None)));
}

#[test]
fn tombstone_sentinel_is_no_value() {
    let mut store = open_empty();
    set(&mut store, "k", "v");
    assert!(matches!(store.set("k".to_string(), "rm".to_string()), Err(KvsError::ReservedValue)));
    assert_eq!(get(&store, "k"), Some("v".to_string()));
}

#[test]
fn empty_value_is_a_value() {
    let mut store = open_empty();
    set(&mut store, "k", "");
    assert_eq!(get(&store, "k"), Some(String::new()));
}

#[test]
fn cap_grows_by_the_threshold_with_each_generation() {
    assert_eq!(BASE_SEGMENT_SIZE, 1024);
    assert_eq!(COMPACTION_THRESHOLD, 4);
    assert_eq!(segment_cap(0), 1024);
    assert_eq!(segment_cap(1), 4096);
    assert_eq!(segment_cap(2), 16384);
    assert_eq!(segment_cap(5), 1024 * 1024);
    assert_eq!(segment_cap(26), 1u64 << 62);
    assert_eq!(segment_cap(27), u64::MAX);
    assert_eq!(segment_cap(u32::MAX), u64::MAX);
}

#[test]
fn new_store_waits_to_create_its_first_segment() {
    let mut store = open_empty();
    assert_eq!(store.segment_count(), 1);
    assert_eq!(store.current_generation(), 0);
    assert_eq!(store.max_segment_size(), 1024);
    let ops = store.take_effects();
    assert_eq!(ops.len(), 1);
    assert!(matches!(ops[0], DiskOp::Create { gen: 0, seq: 0 }));
    assert!(store.take_effects().is_empty());
}

#[test]
fn set_appends_one_record_to_the_active_segment() {
    let mut store = open_empty();
    store.take_effects();
    set(&mut store, "k", "v");
    let ops = store.take_effects();
    assert_eq!(ops.len(), 1);
    match &ops[0] {
        DiskOp::Append { gen, seq, bytes } => {
            assert_eq!((*gen, *seq), (0, 0));
            assert_eq!(bytes, &record("k", "v"));
        }
        other => panic!("{:?}", other),
    }
}

#[test]
fn remove_appends_a_tombstone() {
    let mut store = open_empty();
    set(&mut store, "k", "v");
    store.take_effects();
    store.remove("k".to_string()).unwrap();
    let ops = store.take_effects();
    assert_eq!(ops.len(), 1);
    match &ops[0] {
        DiskOp::Append { bytes, .. } => assert_eq!(bytes, &record("k", "rm")),
        other => panic!("{:?}", other),
    }
}

#[test]
fn failed_write_changes_nothing() {
    let mut store = open_empty();
    store.take_effects();
    assert!(store.remove("k".to_string()).is_err());
    assert!(store.set(String::new(), "v".to_string()).is_err());
    assert!(store.take_effects().is_empty());
}

#[test]
fn full_segment_is_sealed_before_the_next_write() {
    let mut store = open_empty();
    store.take_effects();
    let value = "x".repeat(1100);
    set(&mut store, "a", &value);
    assert_eq!(store.segment_count(), 1);
    set(&mut store, "b", "small");
    assert_eq!(store.segment_count(), 2);
    let ops = store.take_effects();
    assert_eq!(ops.len(), 3);
    assert!(matches!(ops[0], DiskOp::Append { gen: 0, seq: 0, .. }));
    assert!(matches!(ops[1], DiskOp::Create { gen: 0, seq: 1 }));
    assert!(matches!(ops[2], DiskOp::Append { gen: 0, seq: 1, .. }));
    assert_eq!(get(&store, "a"), Some(value));
    assert_eq!(get(&store, "b"), Some("small".to_string()));
}

#[test]
fn log_is_compacted_above_the_threshold() {
    let mut store = open_empty();
    let value = "x".repeat(1100);
    for key in ["a", "b", "c", "d"] {
        set(&mut store, key, &value);
    }
    assert_eq!(store.segment_count(), 4);
    assert_eq!(store.current_generation(), 0);
    store.take_effects();
    set(&mut store, "a", "new");
    assert_eq!(store.segment_count(), 1);
    assert_eq!(store.current_generation(), 1);
    assert_eq!(store.max_segment_size(), 4096);
    assert_eq!(get(&store, "a"), Some("new".to_string()));
    for key in ["b", "c", "d"] {
        assert_eq!(get(&store, key), Some(value.clone()));
    }
    let ops = store.take_effects();
    assert_eq!(ops.len(), 9);
    assert!(matches!(ops[0], DiskOp::Create { gen: 0, seq: 4 }));
    assert!(matches!(ops[1], DiskOp::Append { gen: 0, seq: 4, .. }));
    assert!(matches!(ops[2], DiskOp::Create { gen: 1, seq: 0 }));
    match &ops[3] {
        DiskOp::Append { gen: 1, seq: 0, bytes } => {
            let live = record("a", "new").len() + 3 * record("b", &value).len();
            assert_eq!(bytes.len(), live);
        }
        other => panic!("{:?}", other),
    }
    for (i, op) in ops[4..].iter().enumerate() {
        match op {
            DiskOp::Remove { gen, seq } => assert_eq!((*gen, *seq as usize), (0, i)),
            other => panic!("{:?}", other),
        }
    }
}

#[test]
fn compaction_drops_removed_keys_and_old_values() {
    let mut store = open_empty();
    let value = "x".repeat(1100);
    set(&mut store, "gone", &value);
    set(&mut store, "kept", &value);
    store.remove("gone".to_string()).unwrap();
    set(&mut store, "kept", "short");
    set(&mut store, "more", &value);
    set(&mut store, "last", &value);
    set(&mut store, "tail", "t");
    assert_eq!(store.segment_count(), 1);
    assert_eq!(store.current_generation(), 1);
    assert_eq!(get(&store, "gone"), None);
    assert_eq!(get(&store, "kept"), Some("short".to_string()));
    assert_eq!(get(&store, "more"), Some(value.clone()));
    assert_eq!(get(&store, "last"), Some(value.clone()));
    assert_eq!(get(&store, "tail"), Some("t".to_string()));
    assert!(matches!(store.remove("gone".to_string()), Err(KvsError::KeyNotFound)));
}

#[test]
fn thousand_large_values_stay_within_bounds() {
    let mut store = open_empty();
    let mut dir: Vec<(String, Vec<u8>)> = Vec::new();
    let mut live = 0usize;
    for i in 0..1000 {
        let key = format!("key{}", i);
        let value = format!("{:04}", i).repeat(1024);
        assert!(value.len() >= 4096);
        live += record(&key, &value).len();
        store.set(key, value).unwrap();
        assert!(store.segment_count() <= COMPACTION_THRESHOLD + 1);
        carry_out(&mut dir, store.take_effects());
        assert!(dir.len() <= COMPACTION_THRESHOLD + 1);
    }
    let on_disk: usize = dir.iter().map(|f| f.1.len()).sum();
    assert!(on_disk <= 2 * live);
    assert!(on_disk >= live);
    assert_eq!(dir.len(), store.segment_count());
    for i in (0..1000).step_by(97) {
        assert_eq!(get(&store, &format!("key{}", i)), Some(format!("{:04}", i).repeat(1024)));
    }
}

#[test]
fn reopened_store_gives_the_same_answers() {
    let mut store = open_empty();
    let mut dir: Vec<(String, Vec<u8>)> = Vec::new();
    let value = "y".repeat(700);
    for round in 0..40 {
        let key = format!("k{}", round % 7);
        if round % 5 == 4 {
            let _ = store.remove(key);
        } else {
            store.set(key, format!("{}{}", value, round)).unwrap();
        }
        carry_out(&mut dir, store.take_effects());
        let again = reopen(&dir);
        assert_eq!(again.segment_count(), store.segment_count());
        assert_eq!(again.current_generation(), store.current_generation());
        assert_eq!(again.max_segment_size(), store.max_segment_size());
        for k in 0..8 {
            let key = format!("k{}", k);
            assert_eq!(again.get(key.clone()).unwrap(), store.get(key).unwrap());
        }
    }
    assert!(store.current_generation() >= 1);
}

#[test]
fn directory_mirrors_the_log_after_each_write() {
    let mut store = open_empty();
    let mut dir: Vec<(String, Vec<u8>)> = Vec::new();
    carry_out(&mut dir, store.take_effects());
    assert_eq!(dir, vec![("0_kv_0.dat".to_string(), Vec::new())]);
    set(&mut store, "k", "v");
    carry_out(&mut dir, store.take_effects());
    assert_eq!(dir, vec![("0_kv_0.dat".to_string(), record("k", "v"))]);
    for f in &dir {
        assert!(parse_segment_name(&f.0).is_some());
    }
}

#[test]
fn open_replays_segments_in_the_order_of_their_names() {
    let mut first = record("k", "old");
    first.extend_from_slice(&record("gone", "x"));
    let mut second = record("k", "new");
    second.extend_from_slice(&record("gone", "rm"));
    let files = vec![
        SegmentFile { name: "0_kv_1.dat".to_string(), data: second },
        SegmentFile { name: "LOCK".to_string(), data: b"pid".to_vec() },
        SegmentFile { name: "0_kv_0.dat".to_string(), data: first },
    ];
    let mut store = KvStore::open(files).unwrap();
    assert_eq!(get(&store, "k"), Some("new".to_string()));
    assert_eq!(get(&store, "gone"), None);
    assert_eq!(store.segment_count(), 2);
    assert!(store.take_effects().is_empty());
}

#[test]
fn open_takes_the_generation_from_the_last_segment() {
    let files = vec![
        SegmentFile { name: "3_kv_0.dat".to_string(), data: record("a", "1") },
        SegmentFile { name: "3_kv_1.dat".to_string(), data: Vec::new() },
    ];
    let store = KvStore::open(files).unwrap();
    assert_eq!(store.current_generation(), 3);
    assert_eq!(store.max_segment_size(), 1024 * 64);
    assert_eq!(get(&store, "a"), Some("1".to_string()));
}

#[test]
fn open_fails_on_a_torn_record() {
    let mut data = record("k", "v");
    data.extend_from_slice(&record("k2", "v2")[..12]);
    let files = vec![SegmentFile { name: "0_kv_0.dat".to_string(), data }];
    assert!(matches!(KvStore::open(files), Err(KvsError::Codec)));
}

#[test]
fn open_fails_on_two_files_for_one_segment() {
    let files = vec![
        SegmentFile { name: "0_kv_0.dat".to_string(), data: Vec::new() },
        SegmentFile { name: "0_kv_00.dat".to_string(), data: Vec::new() },
    ];
    assert!(matches!(KvStore::open(files), Err(KvsError::Codec)));
}

#[test]
fn many_segments_are_compacted_by_the_first_write() {
    let files = (0..9)
        .map(|i| SegmentFile { name: segment_name(0, i), data: record(&format!("k{}", i), "v") })
        .collect();
    let mut store = KvStore::open(files).unwrap();
    assert_eq!(store.segment_count(), 9);
    set(&mut store, "k0", "w");
    assert_eq!(store.segment_count(), 1);
    assert_eq!(store.current_generation(), 1);
    assert_eq!(get(&store, "k0"), Some("w".to_string()));
    for i in 1..9 {
        assert_eq!(get(&store, &format!("k{}", i)), Some("v".to_string()));
    }
}

#[test]
fn write_fails_where_the_generation_cannot_advance() {
    let files = (0..5)
        .map(|i| SegmentFile { name: segment_name(u32::MAX, i), data: Vec::new() })
        .collect();
    let mut store = KvStore::open(files).unwrap();
    assert!(matches!(store.set("k".to_string(), "v".to_string()), Err(KvsError::Exhausted)));
    assert_eq!(store.segment_count(), 5);
    assert_eq!(get(&store, "k"), None);
}

#[test]
fn compacted_segment_holds_the_live_records_and_no_others() {
    let mut store = open_empty();
    let value = "x".repeat(1100);
    set(&mut store, "a", &value);
    set(&mut store, "b", &value);
    store.remove("b".to_string()).unwrap();
    set(&mut store, "c", &value);
    set(&mut store, "d", &value);
    store.take_effects();
    set(&mut store, "a", "new");
    let ops = store.take_effects();
    let written: Vec<&Vec<u8>> = ops
        .iter()
        .filter_map(|op| match op {
            DiskOp::Append { gen: 1, seq: 0, bytes } => Some(bytes),
            _ => None,
        })
        .collect();
    assert_eq!(written.len(), 1);
    let mut live = record("a", "new");
    live.extend_from_slice(&record("c", &value));
    live.extend_from_slice(&record("d", &value));
    assert_eq!(written[0], &live);
    assert_eq!(get(&store, "b"), None);
}

#[test]
fn index_points_behind_the_length_of_the_record() {
    let mut store = open_empty();
    set(&mut store, "k", "v");
    let first = record("k", "v").len();
    assert_eq!(store.locate("k"), Some(SizeInfo { segment_id: 0, start: 8, size: first - 8 }));
    set(&mut store, "other", "value");
    let second = record("other", "value").len();
    assert_eq!(
        store.locate("other"),
        Some(SizeInfo { segment_id: 0, start: first + 8, size: second - 8 })
    );
    set(&mut store, "k", "v2");
    assert_eq!(
        store.locate("k"),
        Some(SizeInfo { segment_id: 0, start: first + second + 8, size: record("k", "v2").len() - 8 })
    );
    store.remove("other".to_string()).unwrap();
    assert_eq!(store.locate("other"), None);
    assert_eq!(store.locate("never"), None);
}

#[test]
fn replayed_index_is_the_index_that_was_kept() {
    let mut store = open_empty();
    let mut dir: Vec<(String, Vec<u8>)> = Vec::new();
    let value = "z".repeat(500);
    let keys: Vec<String> = (0..9).map(|k| format!("key{}", k)).collect();
    for round in 0..60 {
        let key = keys[(round * 5) % 9].clone();
        if round % 4 == 3 {
            let _ = store.remove(key);
        } else {
            store.set(key, format!("{}{}", value, round)).unwrap();
        }
        carry_out(&mut dir, store.take_effects());
        let again = reopen(&dir);
        for key in &keys {
            assert_eq!(again.locate(key), store.locate(key));
        }
    }
}

#[test]
fn index_is_built_from_segments_in_order() {
    let mut first = record("a", "1");
    let a2 = first.len();
    first.extend_from_slice(&record("b", "2"));
    let mut second = record("a", "3");
    let b_rm = second.len();
    second.extend_from_slice(&record("b", "rm"));
    let segments = vec![
        Segment { gen: 0, seq: 0, data: first },
        Segment { gen: 0, seq: 1, data: second },
    ];
    let index = build_index(&segments).unwrap();
    assert_eq!(index.len(), 1);
    assert_eq!(index.get("a"), Some(&SizeInfo { segment_id: 1, start: 8, size: b_rm - 8 }));
    assert!(index.get("b").is_none());
    assert!(a2 > 8);
}

#[test]
fn index_of_a_malformed_segment_is_refused() {
    let segments = vec![Segment { gen: 0, seq: 0, data: vec![0, 0, 0, 0, 0, 0, 0, 2, b'{', b'}'] }];
    assert!(matches!(build_index(&segments), Err(KvsError::Codec)));
    let segments = vec![Segment { gen: 0, seq: 0, data: vec![0, 0, 0] }];
    assert!(matches!(build_index(&segments), Err(KvsError::Codec)));
}

#[test]
fn segments_out_of_order_are_refused() {
    let segments = vec![
        Segment { gen: 0, seq: 1, data: Vec::new() },
        Segment { gen: 0, seq: 0, data: Vec::new() },
    ];
    assert!(matches!(KvStore::from_segments(segments), Err(KvsError::Codec)));
    let segments = vec![
        Segment { gen: 1, seq: 0, data: Vec::new() },
        Segment { gen: 1, seq: 0, data: Vec::new() },
    ];
    assert!(matches!(KvStore::from_segments(segments), Err(KvsError::Codec)));
    assert!(matches!(KvStore::from_segments(Vec::new()), Err(KvsError::Codec)));
}

#[test]
fn store_over_given_segments_has_nothing_to_write() {
    let segments = vec![
        Segment { gen: 2, seq: 3, data: record("k", "v") },
        Segment { gen: 2, seq: 4, data: Vec::new() },
    ];
    let mut store = KvStore::from_segments(segments).unwrap();
    assert!(store.take_effects().is_empty());
    assert_eq!(get(&store, "k"), Some("v".to_string()));
    assert_eq!(store.max_segment_size(), 16384);
    set(&mut store, "k2", "v2");
    let ops = store.take_effects();
    assert_eq!(ops.len(), 1);
    assert!(matches!(ops[0], DiskOp::Append { gen: 2, seq: 4, .. }));
}

#[test]
fn old_files_are_deleted_after_the_new_generation_is_written() {
    let mut store = open_empty();
    let value = "x".repeat(2000);
    let mut all: Vec<DiskOp> = Vec::new();
    for i in 0..40 {
        set(&mut store, &format!("k{}", i % 3), &value);
        all.extend(store.take_effects());
    }
    let mut written: Vec<(u32, u32)> = Vec::new();
    let mut removed = 0;
    for op in &all {
        match op {
            DiskOp::Create { gen, seq } => written.push((*gen, *seq)),
            DiskOp::Append { gen, seq, .. } => assert_eq!(written.last(), Some(&(*gen, *seq))),
            DiskOp::Remove { gen, seq } => {
                removed += 1;
                let newest = written.last().unwrap();
                assert!(newest.0 > *gen);
                assert!(written.contains(&(*gen, *seq)));
            }
        }
    }
    assert!(removed > 0);
}

#[test]
fn interleaved_writers_and_readers_see_only_what_was_written() {
    let mut store = open_empty();
    let mut dir: Vec<(String, Vec<u8>)> = Vec::new();
    let mut written: Vec<(String, String)> = Vec::new();
    for step in 0..200 {
        let writer = step % 4;
        let key = format!("w{}k{}", writer, step / 4);
        let value = format!("w{}v{}", writer, step);
        store.set(key.clone(), value.clone()).unwrap();
        carry_out(&mut dir, store.take_effects());
        written.push((key, value));
        for reader in 0..3 {
            let probe = format!("w{}k{}", (step + reader) % 4, (step / 4 + reader) % 50);
            if let Some(found) = store.get(probe.clone()).unwrap() {
                assert!(written.iter().any(|w| w.0 == probe && w.1 == found));
            } else {
                assert!(!written.iter().any(|w| w.0 == probe));
            }
        }
    }
    let again = reopen(&dir);
    for (key, value) in &written {
        assert_eq!(again.get(key.clone()).unwrap(), Some(value.clone()));
    }
}
