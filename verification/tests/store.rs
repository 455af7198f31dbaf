//! The storage engine, exercised from outside: reads and writes,
//! persistence across close and open, compaction, and corruption.

use std::collections::HashMap;

use kvs::FsAction;
use kvs::KvsError;
use kvs::KvStore;

fn fresh_store() -> KvStore {
    KvStore::open(Vec::new(), 0).unwrap()
}

fn reopen(store: KvStore) -> KvStore {
    KvStore::open(store.into_segments(), 0).unwrap()
}

#[test]
fn set_get_remove_sequence() {
    let mut store = fresh_store();
    store.set("k1".to_owned(), "v1".to_owned()).unwrap();
    store.set("k2".to_owned(), "v2".to_owned()).unwrap();
    assert_eq!(store.get("k1".to_owned()).unwrap(), Some("v1".to_owned()));
    store.remove("k1".to_owned()).unwrap();
    assert_eq!(store.get("k1".to_owned()).unwrap(), None);
    assert_eq!(store.get("k2".to_owned()).unwrap(), Some("v2".to_owned()));
}

#[test]
fn overwrite_keeps_last_value() {
    let mut store = fresh_store();
    store.set("key".to_owned(), "first".to_owned()).unwrap();
    store.set("key".to_owned(), "second".to_owned()).unwrap();
    assert_eq!(
        store.get("key".to_owned()).unwrap(),
        Some("second".to_owned())
    );
}

#[test]
fn remove_absent_key_fails() {
    let mut store = fresh_store();
    store.set("present".to_owned(), "x".to_owned()).unwrap();
    assert!(matches!(
        store.remove("absent".to_owned()),
        Err(KvsError::KeyNotFound)
    ));
    assert_eq!(store.get("present".to_owned()).unwrap(), Some("x".to_owned()));
}

#[test]
fn thousand_overwrites_survive_reopen() {
    let mut store = fresh_store();
    for i in 0..1000u32 {
        store.set("key1".to_owned(), format!("{}", i)).unwrap();
    }
    let mut store = reopen(store);
    assert_eq!(store.get("key1".to_owned()).unwrap(), Some("999".to_owned()));
    // and the reopened store is still writable
    store.set("key2".to_owned(), "v".to_owned()).unwrap();
    assert_eq!(store.get("key2".to_owned()).unwrap(), Some("v".to_owned()));
}

#[test]
fn acknowledged_set_survives_immediate_reopen() {
    let mut store = fresh_store();
    store.set("k".to_owned(), "v".to_owned()).unwrap();
    // simulate the process dying right after the acknowledgement: only
    // the persisted log carries over
    let store = reopen(store);
    assert_eq!(store.get("k".to_owned()).unwrap(), Some("v".to_owned()));
}

#[test]
fn removals_survive_reopen() {
    let mut store = fresh_store();
    store.set("a".to_owned(), "1".to_owned()).unwrap();
    store.set("b".to_owned(), "2".to_owned()).unwrap();
    store.remove("a".to_owned()).unwrap();
    let store = reopen(store);
    assert_eq!(store.get("a".to_owned()).unwrap(), None);
    assert_eq!(store.get("b".to_owned()).unwrap(), Some("2".to_owned()));
}

#[test]
fn reopen_twice_is_equivalent() {
    let mut store = fresh_store();
    store.set("x".to_owned(), "y".to_owned()).unwrap();
    let once = reopen(store);
    let twice = reopen(once);
    assert_eq!(twice.get("x".to_owned()).unwrap(), Some("y".to_owned()));
}

#[test]
fn compaction_triggers_and_preserves_contents() {
    let mut store = fresh_store();
    let _ = store.take_actions();
    let big = "x".repeat(4096);
    // 300 overwrites of 10 keys leave far more than the compaction
    // threshold of superseded bytes
    for round in 0..300u32 {
        for k in 0..10u32 {
            let value = format!("{}-{}-{}", round, k, big);
            store.set(format!("key{}", k), value).unwrap();
        }
    }
    let actions = store.take_actions();
    assert!(actions
        .iter()
        .any(|a| matches!(a, FsAction::CreateGen { .. })));
    for k in 0..10u32 {
        let expected = format!("{}-{}-{}", 299, k, big);
        assert_eq!(store.get(format!("key{}", k)).unwrap(), Some(expected));
    }
}

#[test]
fn compacted_store_reopens_with_same_contents() {
    let mut store = fresh_store();
    let big = "y".repeat(2048);
    for round in 0..600u32 {
        store
            .set("hot".to_owned(), format!("{}{}", round, big))
            .unwrap();
    }
    store.set("cold".to_owned(), "keep".to_owned()).unwrap();
    // compaction renumbers the generation; the reference keeps only the
    // chosen generation's segments, which is what into_segments returns
    let store = KvStore::open(store.into_segments(), 1).unwrap();
    assert_eq!(
        store.get("cold".to_owned()).unwrap(),
        Some("keep".to_owned())
    );
    assert_eq!(
        store.get("hot".to_owned()).unwrap(),
        Some(format!("{}{}", 599, big))
    );
}

#[test]
fn corrupted_tail_fails_open() {
    let mut store = fresh_store();
    store.set("k".to_owned(), "v".to_owned()).unwrap();
    let mut segments = store.into_segments();
    // drop the last byte of the last record: a partial line is corruption
    let last = segments.len() - 1;
    segments[last].pop();
    assert!(matches!(
        KvStore::open(segments, 0),
        Err(KvsError::Deserialize(_))
    ));
}

#[test]
fn garbage_log_fails_open() {
    let segments = vec![b"not a record\n".to_vec()];
    assert!(matches!(
        KvStore::open(segments, 0),
        Err(KvsError::Deserialize(_))
    ));
}

#[test]
fn empty_value_is_stored() {
    let mut store = fresh_store();
    store.set("k".to_owned(), String::new()).unwrap();
    assert_eq!(store.get("k".to_owned()).unwrap(), Some(String::new()));
    let store = reopen(store);
    assert_eq!(store.get("k".to_owned()).unwrap(), Some(String::new()));
}

#[test]
fn generation_selection_rule() {
    // fresh store
    assert_eq!(kvs::select_generation(&Vec::new()), 0);
    // steady state
    assert_eq!(kvs::select_generation(&vec![4]), 4);
    // after a completed compaction, the newer of two
    assert_eq!(kvs::select_generation(&vec![3, 4]), 4);
    assert_eq!(kvs::select_generation(&vec![4, 3]), 4);
    // a crashed compaction left a partial newest: take the second-newest
    assert_eq!(kvs::select_generation(&vec![2, 3, 4]), 3);
    assert_eq!(kvs::select_generation(&vec![4, 2, 3]), 3);
    assert_eq!(kvs::select_generation(&vec![1, 2, 3, 4]), 3);
}

#[test]
fn path_names() {
    assert_eq!(kvs::get_store_dir_by(0), "gen_0");
    assert_eq!(kvs::get_store_dir_by(17), "gen_17");
    assert_eq!(kvs::get_file_path(2, 0), "gen_2/0.log");
    assert_eq!(kvs::get_file_path(10, 251), "gen_10/251.log");
}

#[test]
fn disjoint_key_ranges_do_not_clobber_each_other() {
    let mut store = fresh_store();
    for writer in 0..8u32 {
        for i in 0..500u32 {
            let key = format!("w{}-{}", writer, i);
            store.set(key, format!("{}", writer * 1000 + i)).unwrap();
        }
    }
    for writer in 0..8u32 {
        for i in 0..500u32 {
            let key = format!("w{}-{}", writer, i);
            assert_eq!(
                store.get(key).unwrap(),
                Some(format!("{}", writer * 1000 + i))
            );
        }
    }
}

#[test]
fn manual_compaction_preserves_contents() {
    let mut store = fresh_store();
    store.set("a".to_owned(), "1".to_owned()).unwrap();
    store.set("b".to_owned(), "2".to_owned()).unwrap();
    store.remove("a".to_owned()).unwrap();
    store.compact();
    assert_eq!(store.get("a".to_owned()).unwrap(), None);
    assert_eq!(store.get("b".to_owned()).unwrap(), Some("2".to_owned()));
    let store = KvStore::open(store.into_segments(), 1).unwrap();
    assert_eq!(store.get("b".to_owned()).unwrap(), Some("2".to_owned()));
}

#[test]
fn action_transcript_rebuilds_the_store() {
    // apply the filesystem actions to a simulated disk, as the real
    // process applies them to files
    let mut disk: HashMap<u64, HashMap<u64, Vec<u8>>> = HashMap::new();
    let mut apply = |disk: &mut HashMap<u64, HashMap<u64, Vec<u8>>>, actions: Vec<FsAction>| {
        for action in actions {
            match action {
                FsAction::CreateGen { gen } => {
                    disk.entry(gen).or_default();
                },
                FsAction::RemoveGen { gen } => {
                    disk.remove(&gen);
                },
                FsAction::NewFile { gen, file } => {
                    disk.entry(gen).or_default().insert(file, Vec::new());
                },
                FsAction::Append { gen, file, bytes } => {
                    disk.entry(gen)
                        .or_default()
                        .entry(file)
                        .or_default()
                        .extend_from_slice(&bytes);
                },
            }
        }
    };

    let mut store = fresh_store();
    apply(&mut disk, store.take_actions());
    let big = "z".repeat(2048);
    for round in 0..600u32 {
        store
            .set("churn".to_owned(), format!("{}{}", round, big))
            .unwrap();
        apply(&mut disk, store.take_actions());
    }
    store.set("steady".to_owned(), "here".to_owned()).unwrap();
    store.remove("churn".to_owned()).unwrap();
    apply(&mut disk, store.take_actions());

    // reopen from the simulated disk: pick the generation by the rule,
    // then read its segments in numeric order
    let gens: Vec<u64> = disk.keys().copied().collect();
    assert!(gens.len() >= 2, "compaction should have produced a new generation");
    let gen = kvs::select_generation(&gens);
    let files = &disk[&gen];
    let mut stems: Vec<u64> = files.keys().copied().collect();
    stems.sort_unstable();
    let segments: Vec<Vec<u8>> = stems.iter().map(|n| files[n].clone()).collect();

    let reopened = KvStore::open(segments, gen).unwrap();
    assert_eq!(reopened.get("churn".to_owned()).unwrap(), None);
    assert_eq!(
        reopened.get("steady".to_owned()).unwrap(),
        Some("here".to_owned())
    );
}

#[test]
fn take_actions_drains_the_transcript() {
    let mut store = fresh_store();
    let first = store.take_actions();
    // a fresh store records the creation of its first, empty segment
    assert_eq!(first, vec![FsAction::NewFile { gen: 0, file: 0 }]);
    assert_eq!(store.take_actions(), Vec::new());
    store.set("k".to_owned(), "v".to_owned()).unwrap();
    assert!(!store.take_actions().is_empty());
    assert_eq!(store.take_actions(), Vec::new());
}

#[test]
fn compaction_actions_clear_leftovers_first_and_delete_old_last() {
    let mut store = fresh_store();
    store.set("a".to_owned(), "1".to_owned()).unwrap();
    store.set("b".to_owned(), "2".to_owned()).unwrap();
    let _ = store.take_actions();

    // first compaction: generation 1 is cleared of any crashed leftover
    // before being written; generation 0 stays (it is the previous one)
    store.compact();
    let acts = store.take_actions();
    assert_eq!(acts[0], FsAction::RemoveGen { gen: 1 });
    assert_eq!(acts[1], FsAction::CreateGen { gen: 1 });
    assert_eq!(acts[2], FsAction::NewFile { gen: 1, file: 0 });
    assert!(acts.iter().all(|a| *a != FsAction::RemoveGen { gen: 0 }));

    // second compaction: generation 0 is now two epochs old and is
    // deleted by the very last action, after every record is written
    store.compact();
    let acts = store.take_actions();
    assert_eq!(acts[0], FsAction::RemoveGen { gen: 2 });
    assert_eq!(acts[1], FsAction::CreateGen { gen: 2 });
    assert_eq!(*acts.last().unwrap(), FsAction::RemoveGen { gen: 0 });
    assert!(acts[..acts.len() - 1]
        .iter()
        .all(|a| *a != FsAction::RemoveGen { gen: 0 }));
}

#[test]
fn stale_leftover_segments_do_not_survive_compaction() {
    // a crashed compaction left stale files in the next generation; the
    // next compaction into it must clear them before writing
    let mut disk: HashMap<u64, HashMap<u64, Vec<u8>>> = HashMap::new();
    let mut stale_gen1: HashMap<u64, Vec<u8>> = HashMap::new();
    stale_gen1.insert(7, b"junk from a crashed attempt".to_vec());
    disk.insert(1, stale_gen1);

    let mut store = fresh_store();
    store.set("k".to_owned(), "v".to_owned()).unwrap();
    for a in store.take_actions() {
        apply_to_disk(&mut disk, a);
    }
    store.compact();
    for a in store.take_actions() {
        apply_to_disk(&mut disk, a);
    }
    let files = &disk[&1];
    assert!(!files.contains_key(&7));
    let mut stems: Vec<u64> = files.keys().copied().collect();
    stems.sort_unstable();
    let segments: Vec<Vec<u8>> = stems.iter().map(|n| files[n].clone()).collect();
    let reopened = KvStore::open(segments, 1).unwrap();
    assert_eq!(reopened.get("k".to_owned()).unwrap(), Some("v".to_owned()));
}

fn apply_to_disk(disk: &mut HashMap<u64, HashMap<u64, Vec<u8>>>, action: FsAction) {
    match action {
        FsAction::CreateGen { gen } => {
            disk.entry(gen).or_default();
        },
        FsAction::RemoveGen { gen } => {
            disk.remove(&gen);
        },
        FsAction::NewFile { gen, file } => {
            disk.entry(gen).or_default().insert(file, Vec::new());
        },
        FsAction::Append { gen, file, bytes } => {
            disk.entry(gen)
                .or_default()
                .entry(file)
                .or_default()
                .extend_from_slice(&bytes);
        },
    }
}
