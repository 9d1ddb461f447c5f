use robustmq::keys::{
    group_record_offsets_key, key_offset_key, shard_info_key, shard_name, shard_offset_key,
    shard_record_key, tag_offsets_key, timestamp_offset_key,
};
use robustmq::storage::{MemoryStorageAdapter, ReadConfig, Record, ShardInfo, StorageError};

fn record(key: &str, tags: &[&str], data: &[u8], timestamp: u64) -> Record {
    Record {
        offset: None,
        key: key.to_string(),
        tags: tags.iter().map(|t| t.to_string()).collect(),
        data: data.to_vec(),
        timestamp,
        crc_num: 0,
        headers: Vec::new(),
    }
}

fn info(ns: &str, name: &str) -> ShardInfo {
    ShardInfo {
        namespace: ns.to_string(),
        shard_name: name.to_string(),
        replica_num: 1,
    }
}

fn unlimited(n: u64) -> ReadConfig {
    ReadConfig {
        max_record_num: n,
        max_size: u64::MAX,
    }
}

#[test]
fn keys_are_zero_padded() {
    assert_eq!(shard_record_key("ns", "s", 5), "/record/ns/s/record/00000000000000000005");
    assert_eq!(shard_offset_key("ns", "s"), "/offset/ns/s");
    assert_eq!(key_offset_key("ns", "s", "k1"), "/key/ns/s/k1");
    assert_eq!(tag_offsets_key("ns", "s", "t", 12), "/tag/ns/s/t/00000000000000000012");
    assert_eq!(
        timestamp_offset_key("ns", "s", 1700000000, 3),
        "/timestamp/ns/s/00000000001700000000/00000000000000000003"
    );
    assert_eq!(group_record_offsets_key("g", "ns", "s"), "/group/g/ns/s");
    assert_eq!(shard_info_key("ns", "s"), "/shard/ns/s");
    assert_eq!(shard_record_key("ns", "s", u64::MAX), "/record/ns/s/record/18446744073709551615");
    assert_eq!(shard_name("offset", 12), "offset_12");
    assert_eq!(shard_name("metadata", 0), "metadata_0");
}

fn byte_record(data: &str) -> Record {
    record("", &[], data.as_bytes(), 0)
}

fn data_of(r: &Record) -> String {
    String::from_utf8(r.data.clone()).unwrap()
}

#[test]
fn stream_read_write() {
    let mut store = MemoryStorageAdapter::new();
    let namespace = "ns-stream".to_string();
    let shard_name = "test-11".to_string();
    store.create_shard(info(&namespace, &shard_name)).unwrap();

    let shards = store.list_shard(&namespace, &shard_name);
    assert_eq!(shards.len(), 1);
    assert_eq!(shards[0].shard_name, shard_name);
    assert_eq!(shards[0].namespace, namespace);
    assert_eq!(shards[0].replica_num, 1);

    let all = ReadConfig { max_record_num: u64::MAX, max_size: u64::MAX };
    let result = store.batch_write(&namespace, &shard_name, vec![byte_record("test1"), byte_record("test2")]).unwrap();
    assert_eq!(result[0], 0);
    assert_eq!(result[1], 1);
    assert_eq!(store.read_by_offset(&namespace, &shard_name, 0, all).unwrap().len(), 2);

    let result = store.batch_write(&namespace, &shard_name, vec![byte_record("test3"), byte_record("test4")]).unwrap();
    let result_read = store.read_by_offset(&namespace, &shard_name, 2, all).unwrap();
    assert_eq!(result[0], 2);
    assert_eq!(result[1], 3);
    assert_eq!(result_read.len(), 2);

    let group_id = "group-stream";
    let read_config = ReadConfig { max_record_num: 1, max_size: u64::MAX };
    let res = store.read_by_offset(&namespace, &shard_name, 0, read_config).unwrap();
    assert_eq!(data_of(&res[0]), "test1");

    let mut committed = res[0].offset.unwrap();
    for expected in ["test2", "test3", "test4"] {
        store.commit_offset(group_id, &namespace, &vec![(shard_name.clone(), committed)]);
        let offsets = store.get_offset_by_group(group_id);
        let res = store.read_by_offset(&namespace, &shard_name, offsets[0].offset + 1, read_config).unwrap();
        assert_eq!(data_of(&res[0]), expected);
        committed = res[0].offset.unwrap();
    }
    store.commit_offset(group_id, &namespace, &vec![(shard_name.clone(), committed)]);
    assert_eq!(store.get_offset_by_group(group_id)[0].offset, 3);

    store.delete_shard(&namespace, &shard_name).unwrap();
    let shards = store.list_shard(&namespace, &shard_name);
    assert_eq!(shards.len(), 0);
}

#[test]
fn list_shard_scans_by_prefix() {
    let mut store = MemoryStorageAdapter::new();
    store.create_shard(info("ns", "test-1")).unwrap();
    store.create_shard(info("ns", "test-10")).unwrap();
    store.create_shard(info("ns", "other")).unwrap();
    store.create_shard(info("ns2", "test-1")).unwrap();
    assert_eq!(store.list_shard("ns", "").len(), 3);
    let names: Vec<String> = store.list_shard("ns", "test-1").into_iter().map(|s| s.shard_name).collect();
    assert_eq!(names, vec!["test-1".to_string(), "test-10".to_string()]);
    assert_eq!(store.list_shard("", "").len(), 4);
}

#[test]
fn size_limit_stops_before_overflowing_record() {
    let mut store = MemoryStorageAdapter::new();
    store.create_shard(info("ns", "s")).unwrap();
    store
        .batch_write("ns", "s", vec![record("", &[], b"aaaa", 1), record("", &[], b"bbbb", 2), record("", &[], b"cc", 3)])
        .unwrap();
    let cfg = ReadConfig { max_record_num: 10, max_size: 9 };
    let read = store.read_by_offset("ns", "s", 0, cfg).unwrap();
    assert_eq!(read.len(), 2);
}

#[test]
fn zero_max_size_returns_only_empty_first_record() {
    let mut store = MemoryStorageAdapter::new();
    store.create_shard(info("ns", "s")).unwrap();
    store
        .batch_write("ns", "s", vec![record("", &[], b"", 1), record("", &[], b"x", 2)])
        .unwrap();
    let cfg = ReadConfig { max_record_num: 5, max_size: 0 };
    let read = store.read_by_offset("ns", "s", 0, cfg).unwrap();
    assert_eq!(read.len(), 1);
    let read = store.read_by_offset("ns", "s", 1, cfg).unwrap();
    assert!(read.is_empty());
}

#[test]
fn batch_write_then_read_returns_batch() {
    let mut store = MemoryStorageAdapter::new();
    store.create_shard(info("ns", "s")).unwrap();
    store.write("ns", "s", record("a", &[], b"first", 1)).unwrap();
    let batch = vec![record("b", &[], b"r1", 2), record("c", &[], b"r2", 3), record("d", &[], b"r3", 4)];
    let offsets = store.batch_write("ns", "s", batch).unwrap();
    assert_eq!(offsets, vec![1, 2, 3]);
    let read = store.read_by_offset("ns", "s", 1, unlimited(3)).unwrap();
    let keys: Vec<&str> = read.iter().map(|r| r.key.as_str()).collect();
    assert_eq!(keys, vec!["b", "c", "d"]);
    assert_eq!(read.iter().map(|r| r.offset).collect::<Vec<_>>(), vec![Some(1), Some(2), Some(3)]);
}

#[test]
fn offset_by_timestamp_takes_first_at_or_after() {
    let mut store = MemoryStorageAdapter::new();
    store.create_shard(info("ns", "s")).unwrap();
    store
        .batch_write("ns", "s", vec![record("", &[], b"", 10), record("", &[], b"", 20), record("", &[], b"", 30)])
        .unwrap();
    let hit = store.get_offset_by_timestamp("ns", "s", 20).unwrap().unwrap();
    assert_eq!(hit.offset, 1);
    let hit = store.get_offset_by_timestamp("ns", "s", 25).unwrap().unwrap();
    assert_eq!(hit.offset, 2);
    assert!(store.get_offset_by_timestamp("ns", "s", 31).unwrap().is_none());
}

#[test]
fn shard_lifecycle_errors() {
    let mut store = MemoryStorageAdapter::new();
    assert_eq!(store.create_shard(info("ns", "s")), Ok(()));
    assert_eq!(store.create_shard(info("ns", "s")), Err(StorageError::ShardAlreadyExists));
    store.create_shard(info("ns", "t")).unwrap();
    store.create_shard(info("other", "s")).unwrap();
    assert_eq!(store.list_shard("", "").len(), 3);
    let listed = store.list_shard("ns", "t");
    assert_eq!(listed.len(), 1);
    assert_eq!(listed[0].shard_name, "t");
    assert_eq!(store.list_shard("ns", "").len(), 2);
    store.write("ns", "s", record("k", &["x"], b"d", 1)).unwrap();
    assert_eq!(store.delete_shard("ns", "s"), Ok(()));
    assert_eq!(store.delete_shard("ns", "s"), Err(StorageError::ShardNotFound));
    assert!(matches!(store.read_by_offset("ns", "s", 0, unlimited(1)), Err(StorageError::ShardNotFound)));
    assert!(matches!(store.write("ns", "s", record("", &[], b"", 0)), Err(StorageError::ShardNotFound)));
    store.create_shard(info("ns", "s")).unwrap();
    assert_eq!(store.write("ns", "s", record("", &[], b"", 0)), Ok(0));
    assert!(store.read_by_key("ns", "s", 0, "k", unlimited(1)).unwrap().is_empty());
}

#[test]
fn committed_offsets_never_go_back() {
    let mut store = MemoryStorageAdapter::new();
    store.commit_offset("g1", "ns", &vec![("s0".to_string(), 10), ("s1".to_string(), 3)]);
    store.commit_offset("g1", "ns", &vec![("s0".to_string(), 4)]);
    store.commit_offset("g2", "ns", &vec![("s0".to_string(), 1)]);
    let g1 = store.get_offset_by_group("g1");
    assert_eq!(g1.len(), 2);
    let s0 = g1.iter().find(|o| o.shard_name == "s0").unwrap();
    assert_eq!(s0.offset, 10);
    let s1 = g1.iter().find(|o| o.shard_name == "s1").unwrap();
    assert_eq!(s1.offset, 3);
    assert_eq!(store.get_offset_by_group("g2").len(), 1);
    assert!(store.get_offset_by_group("g3").is_empty());
}

use robustmq::storage::{write_batch_puts, KvValue};

#[test]
fn write_batch_layout_covers_every_index() {
    let records = vec![record("k1", &["a", "b"], b"x", 7), record("", &[], b"y", 8)];
    let puts = write_batch_puts("ns", "s", 10, &records);
    let got: Vec<(String, KvValue)> = puts.into_iter().map(|p| (p.key, p.value)).collect();
    let expect = vec![
        ("/record/ns/s/record/00000000000000000010".to_string(), KvValue::Record(0)),
        ("/key/ns/s/k1".to_string(), KvValue::Offset(10)),
        ("/tag/ns/s/a/00000000000000000010".to_string(), KvValue::Offset(10)),
        ("/tag/ns/s/b/00000000000000000010".to_string(), KvValue::Offset(10)),
        ("/timestamp/ns/s/00000000000000000007/00000000000000000010".to_string(), KvValue::Offset(10)),
        ("/record/ns/s/record/00000000000000000011".to_string(), KvValue::Record(1)),
        ("/timestamp/ns/s/00000000000000000008/00000000000000000011".to_string(), KvValue::Offset(11)),
        ("/offset/ns/s".to_string(), KvValue::Offset(12)),
    ];
    assert_eq!(got, expect);
}
