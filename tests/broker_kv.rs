use robustmq::broker_kv::{
    engine_delete_by_broker, engine_delete_prefix_by_broker, engine_exists_by_broker,
    engine_get_by_broker, engine_prefix_list_by_broker, engine_save_by_broker, BrokerKv,
};
use robustmq::storage::column_family_list;

#[test]
fn broker_engine_round_trip() {
    let mut kv = BrokerKv::new();
    assert!(!engine_exists_by_broker(&kv, "/a/1"));
    engine_save_by_broker(&mut kv, "/a/1", b"one".to_vec());
    engine_save_by_broker(&mut kv, "/a/2", b"two".to_vec());
    engine_save_by_broker(&mut kv, "/b/1", b"three".to_vec());
    engine_save_by_broker(&mut kv, "/a/1", b"uno".to_vec());
    assert_eq!(engine_get_by_broker(&kv, "/a/1"), Some(b"uno".to_vec()));
    assert!(engine_exists_by_broker(&kv, "/b/1"));
    assert_eq!(engine_prefix_list_by_broker(&kv, "/a/"), vec![b"two".to_vec(), b"uno".to_vec()]);
    engine_delete_by_broker(&mut kv, "/b/1");
    assert_eq!(engine_get_by_broker(&kv, "/b/1"), None);
    engine_delete_prefix_by_broker(&mut kv, "/a/");
    assert!(engine_prefix_list_by_broker(&kv, "/").is_empty());
}

#[test]
fn storage_opens_the_db_family() {
    assert_eq!(column_family_list(), vec!["db".to_string()]);
}
