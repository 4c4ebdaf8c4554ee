use merkle_storage::actions_file::ActionsFileHeader;
use merkle_storage::channel::Block;
use merkle_storage::database::DB;
use merkle_storage::merkle_storage::{MerkleError, MerkleStorage};

fn key(parts: &[&str]) -> Vec<String> {
    parts.iter().map(|s| s.to_string()).collect()
}

fn get_storage() -> MerkleStorage {
    MerkleStorage::new(DB::new())
}

#[test]
fn test_tree_hash() {
    let mut storage = get_storage();
    storage.set(&key(&["a", "foo"]), &vec![97, 98, 99]).unwrap();
    storage.set(&key(&["b", "boo"]), &vec![97, 98]).unwrap();
    storage.set(&key(&["a", "aaa"]), &vec![97, 98, 99, 100]).unwrap();
    storage.set(&key(&["x"]), &vec![97]).unwrap();
    storage.set(&key(&["one", "two", "three"]), &vec![97]).unwrap();
    let hash = storage.stage_root_hash();
    assert_eq!([0xDB, 0xAE, 0xD7, 0xB6], hash[0..4]);
}

#[test]
fn test_commit_hash() {
    let mut storage = get_storage();
    storage.set(&key(&["a"]), &vec![97, 98, 99]).unwrap();
    let commit = storage.commit(0, "Tezos".to_string(), "Genesis".to_string());
    assert_eq!([0xCF, 0x95, 0x18, 0x33], commit.unwrap()[0..4]);
    storage.set(&key(&["data", "x"]), &vec![97]).unwrap();
    let commit = storage.commit(0, "Tezos".to_string(), "".to_string());
    assert_eq!([0xCA, 0x7B, 0xC7, 0x02], commit.unwrap()[0..4]);
}

#[test]
fn test_multiple_commit_hash() {
    let mut storage = get_storage();
    let _commit = storage.commit(0, "Tezos".to_string(), "Genesis".to_string());
    storage.set(&key(&["data", "a", "x"]), &vec![97]).unwrap();
    storage.copy(&key(&["data", "a"]), &key(&["data", "b"])).unwrap();
    storage.delete(&key(&["data", "b", "x"])).unwrap();
    let commit = storage.commit(0, "Tezos".to_string(), "".to_string());
    assert_eq!([0x9B, 0xB0, 0x0D, 0x6E], commit.unwrap()[0..4]);
}

#[test]
fn get_test() {
    let mut storage = get_storage();
    let key_abc = key(&["a", "b", "c"]);
    let key_abx = key(&["a", "b", "x"]);
    let key_eab = key(&["e", "a", "b"]);
    let key_az = key(&["a", "z"]);
    let key_d = key(&["d"]);
    storage.set(&key_abc, &vec![1u8, 2u8]).unwrap();
    storage.set(&key_abx, &vec![3u8]).unwrap();
    assert_eq!(storage.get(&key_abc).unwrap(), vec![1u8, 2u8]);
    assert_eq!(storage.get(&key_abx).unwrap(), vec![3u8]);
    let commit1 = storage.commit(0, "".to_string(), "".to_string()).unwrap();
    storage.set(&key_az, &vec![4u8]).unwrap();
    storage.set(&key_abx, &vec![5u8]).unwrap();
    storage.set(&key_d, &vec![6u8]).unwrap();
    storage.set(&key_eab, &vec![7u8]).unwrap();
    assert_eq!(storage.get(&key_abx).unwrap(), vec![5u8]);
    let commit2 = storage.commit(0, "".to_string(), "".to_string()).unwrap();
    assert_eq!(storage.get_history(&commit1, &key_abc).unwrap(), vec![1u8, 2u8]);
    assert_eq!(storage.get_history(&commit1, &key_abx).unwrap(), vec![3u8]);
    assert_eq!(storage.get_history(&commit2, &key_abx).unwrap(), vec![5u8]);
    assert_eq!(storage.get_history(&commit2, &key_az).unwrap(), vec![4u8]);
    assert_eq!(storage.get_history(&commit2, &key_d).unwrap(), vec![6u8]);
    assert_eq!(storage.get_history(&commit2, &key_eab).unwrap(), vec![7u8]);
}

#[test]
fn test_copy() {
    let mut storage = get_storage();
    storage.set(&key(&["a", "b", "c"]), &vec![1u8]).unwrap();
    storage.copy(&key(&["a"]), &key(&["z"])).unwrap();
    assert_eq!(vec![1u8], storage.get(&key(&["z", "b", "c"])).unwrap());
}

#[test]
fn test_delete() {
    let mut storage = get_storage();
    storage.set(&key(&["a", "b", "c"]), &vec![2u8]).unwrap();
    storage.set(&key(&["a", "b", "x"]), &vec![3u8]).unwrap();
    storage.delete(&key(&["a", "b", "x"])).unwrap();
    let commit1 = storage.commit(0, "".to_string(), "".to_string()).unwrap();
    assert!(storage.get_history(&commit1, &key(&["a", "b", "x"])).is_err());
}

#[test]
fn test_deleted_entry_available() {
    let mut storage = get_storage();
    storage.set(&key(&["a", "b", "c"]), &vec![2u8]).unwrap();
    let commit1 = storage.commit(0, "".to_string(), "".to_string()).unwrap();
    storage.delete(&key(&["a", "b", "c"])).unwrap();
    let _commit2 = storage.commit(0, "".to_string(), "".to_string()).unwrap();
    assert_eq!(vec![2u8], storage.get_history(&commit1, &key(&["a", "b", "c"])).unwrap());
}

#[test]
fn test_delete_in_separate_commit() {
    let mut storage = get_storage();
    storage.set(&key(&["a", "b", "c"]), &vec![2u8]).unwrap();
    storage.set(&key(&["a", "b", "x"]), &vec![3u8]).unwrap();
    storage.commit(0, "".to_string(), "".to_string()).unwrap();
    storage.delete(&key(&["a", "b", "x"])).unwrap();
    let commit2 = storage.commit(0, "".to_string(), "".to_string()).unwrap();
    assert!(storage.get_history(&commit2, &key(&["a", "b", "x"])).is_err());
}

#[test]
fn test_checkout() {
    let mut storage = get_storage();
    let key_abc = key(&["a", "b", "c"]);
    let key_abx = key(&["a", "b", "x"]);
    storage.set(&key_abc, &vec![1u8]).unwrap();
    storage.set(&key_abx, &vec![2u8]).unwrap();
    let commit1 = storage.commit(0, "".to_string(), "".to_string()).unwrap();
    storage.set(&key_abc, &vec![3u8]).unwrap();
    storage.set(&key_abx, &vec![4u8]).unwrap();
    let commit2 = storage.commit(0, "".to_string(), "".to_string()).unwrap();
    storage.checkout(&commit1).unwrap();
    assert_eq!(storage.get(&key_abc).unwrap(), vec![1u8]);
    assert_eq!(storage.get(&key_abx).unwrap(), vec![2u8]);
    assert_eq!(
        storage.get(&key_abc).unwrap(),
        storage.get_history(&commit1, &key_abc).unwrap()
    );
    assert_eq!(
        storage.get(&key_abx).unwrap(),
        storage.get_history(&commit1, &key_abx).unwrap()
    );
    storage.set(&key_abc, &vec![8u8]).unwrap();
    storage.checkout(&commit2).unwrap();
    assert_eq!(storage.get(&key_abc).unwrap(), vec![3u8]);
    assert_eq!(storage.get(&key_abx).unwrap(), vec![4u8]);
}

#[test]
fn test_persistence_over_reopens() {
    let key_abc = key(&["a", "b", "c"]);
    let mut storage = get_storage();
    let key_abx = key(&["a", "b", "x"]);
    storage.set(&key_abc, &vec![2u8]).unwrap();
    storage.set(&key_abx, &vec![3u8]).unwrap();
    let commit1 = storage.commit(0, "".to_string(), "".to_string()).unwrap();
    assert_eq!(vec![2u8], storage.get_history(&commit1, &key_abc).unwrap());
}

#[test]
fn test_get_errors() {
    let mut storage = get_storage();
    let res = storage.get(&vec![]);
    assert!(matches!(res.err().unwrap(), MerkleError::KeyEmpty));
    let res = storage.get(&key(&["a"]));
    assert!(matches!(res.err().unwrap(), MerkleError::ValueNotFound { .. }));
}

#[test]
fn header_round_trip() {
    let h = ActionsFileHeader::new();
    assert_eq!(h.to_vec(), vec![0u8; 12]);
    let h2 = h.updated(5, 3).unwrap();
    assert_eq!(h2.block_height, 5);
    assert_eq!(h2.actions_count, 3);
    assert_eq!(h2.block_count, 1);
    assert!(h2.updated(5, 1).is_err());
    assert!(h2.updated(4, 1).is_err());
    assert!(h2.updated(6, 1).is_ok());
}

#[test]
fn block_new_keeps_fields() {
    let b = Block::new(7, vec![1, 2], vec![3, 4]);
    assert_eq!(b.block_level, 7);
    assert_eq!(b.block_hash, vec![1, 2]);
    assert_eq!(b.predecessor_hash, vec![3, 4]);
}

#[test]
fn gc_test() {
    let commit1;
    let commit2;
    let key_abc = key(&["a", "b", "c"]);
    let key_abx = key(&["a", "b", "x"]);
    let key_eab = key(&["e", "a", "b"]);
    let key_az = key(&["a", "z"]);
    let key_d = key(&["d"]);
    let mut storage = get_storage();
    storage.set(&key_abc, &vec![1u8, 2u8]).unwrap();
    storage.set(&key_abx, &vec![3u8]).unwrap();
    assert_eq!(storage.get(&key_abc).unwrap(), vec![1u8, 2u8]);
    assert_eq!(storage.get(&key_abx).unwrap(), vec![3u8]);
    commit1 = storage.commit(0, "".to_string(), "".to_string()).unwrap();
    storage.set(&key_az, &vec![4u8]).unwrap();
    storage.set(&key_abx, &vec![5u8]).unwrap();
    storage.set(&key_d, &vec![6u8]).unwrap();
    storage.set(&key_eab, &vec![7u8]).unwrap();
    assert_eq!(storage.get(&key_abx).unwrap(), vec![5u8]);
    commit2 = storage.commit(0, "".to_string(), "".to_string()).unwrap();

    let keys_before_gc = storage.get_merkle_stats().unwrap().db_stats.keys;
    assert_eq!(storage.get_history(&commit1, &key_abc).unwrap(), vec![1u8, 2u8]);
    assert_eq!(storage.get_history(&commit1, &key_abx).unwrap(), vec![3u8]);
    assert_eq!(storage.get_history(&commit2, &key_abx).unwrap(), vec![5u8]);
    assert_eq!(storage.get_history(&commit2, &key_az).unwrap(), vec![4u8]);
    assert_eq!(storage.get_history(&commit2, &key_d).unwrap(), vec![6u8]);
    assert_eq!(storage.get_history(&commit2, &key_eab).unwrap(), vec![7u8]);

    storage.gc().unwrap();
    let keys_after_gc = storage.get_merkle_stats().unwrap().db_stats.keys;
    assert!(keys_after_gc <= keys_before_gc);
    assert_eq!(storage.get_history(&commit2, &key_abc).unwrap(), vec![1u8, 2u8]);
    assert_eq!(storage.get_history(&commit2, &key_abx).unwrap(), vec![5u8]);
    assert_eq!(storage.get_history(&commit2, &key_az).unwrap(), vec![4u8]);
    assert_eq!(storage.get_history(&commit2, &key_d).unwrap(), vec![6u8]);
    assert_eq!(storage.get_history(&commit2, &key_eab).unwrap(), vec![7u8]);
    assert!(storage.get_history(&commit1, &key_abc).is_err());
}

use merkle_storage::merkle_storage::StringTreeEntry;

fn st_blob(s: &str) -> StringTreeEntry {
    StringTreeEntry::Blob(s.to_string())
}

fn st_tree(children: Vec<(&str, StringTreeEntry)>) -> StringTreeEntry {
    StringTreeEntry::Tree(
        children.into_iter().map(|(k, v)| (k.to_string(), v)).collect(),
    )
}

#[test]
fn test_get_context_tree_by_prefix() {
    let mut storage = get_storage();
    let _commit = storage.commit(0, "Tezos".to_string(), "Genesis".to_string());
    storage.set(&key(&["data", "a", "x"]), &vec![3, 4]).unwrap();
    storage.set(&key(&["data", "a"]), &vec![1, 2]).unwrap();
    storage.set(&key(&["data", "a", "x", "y"]), &vec![5, 6]).unwrap();
    storage.set(&key(&["data", "b", "x", "y"]), &vec![7, 8]).unwrap();
    storage.set(&key(&["data", "c"]), &vec![1, 2]).unwrap();
    storage.set(&key(&["adata", "b", "x", "y"]), &vec![9, 10]).unwrap();
    let commit = storage.commit(0, "Tezos".to_string(), "Genesis".to_string()).unwrap();

    let all_expected = st_tree(vec![
        (
            "adata",
            st_tree(vec![(
                "b",
                st_tree(vec![("x", st_tree(vec![("y", st_blob("090a"))]))]),
            )]),
        ),
        (
            "data",
            st_tree(vec![
                ("a", st_tree(vec![("x", st_tree(vec![("y", st_blob("0506"))]))])),
                ("b", st_tree(vec![("x", st_tree(vec![("y", st_blob("0708"))]))])),
                ("c", st_blob("0102")),
            ]),
        ),
    ]);
    let data_expected = st_tree(vec![
        ("a", st_tree(vec![("x", st_tree(vec![("y", st_blob("0506"))]))])),
        ("b", st_tree(vec![("x", st_tree(vec![("y", st_blob("0708"))]))])),
        ("c", st_blob("0102")),
    ]);

    let rv_all = storage.get_context_tree_by_prefix(&commit, &vec![], None).unwrap();
    assert_eq!(rv_all, all_expected);
    let rv_data = storage
        .get_context_tree_by_prefix(&commit, &key(&["data"]), None)
        .unwrap();
    assert_eq!(rv_data, data_expected);

    let rv_d0 = storage.get_context_tree_by_prefix(&commit, &vec![], Some(0)).unwrap();
    assert_eq!(rv_d0, StringTreeEntry::Null);
    let rv_d1 = storage.get_context_tree_by_prefix(&commit, &vec![], Some(1)).unwrap();
    assert_eq!(
        rv_d1,
        st_tree(vec![("adata", StringTreeEntry::Null), ("data", StringTreeEntry::Null)])
    );
    let rv_d2 = storage.get_context_tree_by_prefix(&commit, &vec![], Some(2)).unwrap();
    assert_eq!(
        rv_d2,
        st_tree(vec![
            ("adata", st_tree(vec![("b", StringTreeEntry::Null)])),
            (
                "data",
                st_tree(vec![
                    ("a", StringTreeEntry::Null),
                    ("b", StringTreeEntry::Null),
                    ("c", StringTreeEntry::Null),
                ])
            ),
        ])
    );
}

#[test]
fn test_get_key_values_by_prefix() {
    let mut storage = get_storage();
    storage.set(&key(&["data", "a", "x"]), &vec![3, 4]).unwrap();
    storage.set(&key(&["data", "b"]), &vec![1, 2]).unwrap();
    storage.set(&key(&["adata", "b"]), &vec![9]).unwrap();
    let commit = storage.commit(0, "".to_string(), "".to_string()).unwrap();
    let pairs = storage
        .get_key_values_by_prefix(&commit, &key(&["data"]))
        .unwrap()
        .unwrap();
    assert_eq!(pairs.len(), 2);
    assert_eq!(pairs[0].0, key(&["data", "a", "x"]));
    assert_eq!(pairs[0].1, vec![3, 4]);
    assert_eq!(pairs[1].0, key(&["data", "b"]));
    assert_eq!(pairs[1].1, vec![1, 2]);
    assert!(storage
        .get_key_values_by_prefix(&commit, &key(&["missing"]))
        .unwrap()
        .is_none());
    let staged = storage.get_by_prefix(&key(&["adata"])).unwrap().unwrap();
    assert_eq!(staged, vec![(key(&["adata", "b"]), vec![9u8])]);
}

use merkle_storage::actions_file::{header_of, next_frame, ActionsFile};
use merkle_storage::validator::{apply_action, should_gc, Action};

#[test]
fn actions_file_round_trip() {
    let mut file = ActionsFile::new();
    let payload = vec![4u8, 5, 6, 7, 8];
    let next = file.update(3, 2, &payload).unwrap();
    assert_eq!(next, 4);
    assert_eq!(file.header.block_height, 3);
    assert_eq!(file.header.actions_count, 2);
    assert_eq!(file.header.block_count, 1);
    let (read_back, end) = next_frame(&file.body, 0).unwrap();
    assert_eq!(read_back, payload);
    assert_eq!(end, file.body.len());
    assert!(next_frame(&file.body, end).is_none());

    let stale = file.update(3, 1, &vec![1u8]);
    assert!(stale.is_err());
    assert_eq!(file.header.block_count, 1);
    assert_eq!(file.body.len(), 9);

    let header_bytes = file.header.to_vec();
    let parsed = header_of(header_bytes.as_slice());
    assert_eq!(parsed.block_height, 3);
    assert_eq!(parsed.actions_count, 2);
    assert_eq!(parsed.block_count, 1);
}

#[test]
fn validator_replay_matches_commit() {
    let mut first = get_storage();
    first.set(&key(&["a"]), &vec![97, 98, 99]).unwrap();
    let expected = first.commit(0, "Tezos".to_string(), "Genesis".to_string()).unwrap();

    let mut replayed = get_storage();
    let trace = vec![
        Action::Put { key: key(&["a"]), value: vec![97, 98, 99] },
        Action::Observe,
        Action::Commit {
            time: 0,
            author: "Tezos".to_string(),
            message: "Genesis".to_string(),
            expected: expected.to_vec(),
        },
    ];
    for a in &trace {
        assert_eq!(apply_action(&mut replayed, a).unwrap(), true);
    }

    let mut mismatching = get_storage();
    mismatching.set(&key(&["a"]), &vec![97, 98, 99]).unwrap();
    let bad = Action::Commit {
        time: 0,
        author: "Tezos".to_string(),
        message: "Genesis".to_string(),
        expected: vec![0u8; 32],
    };
    assert_eq!(apply_action(&mut mismatching, &bad).unwrap(), false);

    assert!(!should_gc(0, 4092));
    assert!(!should_gc(5, 4092));
    assert!(should_gc(4092, 4092));
    assert!(should_gc(8184, 4092));
}

#[test]
fn stats_record_latencies() {
    let mut storage = get_storage();
    storage.update_execution_stats("Get".to_string(), None, 100);
    storage.update_execution_stats("Get".to_string(), None, 50);
    storage.update_execution_stats(
        "Set".to_string(),
        Some(&key(&["data", "alpha", "x"])),
        10,
    );
    let stats = storage.get_merkle_stats().unwrap();
    let get_stats = stats
        .perf_stats
        .global
        .iter()
        .find(|(k, _)| k == "Get")
        .map(|(_, v)| *v)
        .unwrap();
    assert_eq!(get_stats.op_exec_times, 2);
    assert_eq!(get_stats.cumul_op_exec_time, 150);
    assert_eq!(get_stats.avg_exec_time, 75);
    assert_eq!(get_stats.op_exec_time_min, 50);
    assert_eq!(get_stats.op_exec_time_max, 100);
    assert_eq!(stats.perf_stats.perpath.len(), 1);
    assert_eq!(stats.perf_stats.perpath[0].0, "alpha");
}
