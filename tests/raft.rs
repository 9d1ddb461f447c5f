use robustmq::cluster::{cluster_readiness, BrokerCache, BrokerNode, ClusterReadiness, ShardStatus};
use robustmq::metrics::MetricsRegistry;
use robustmq::node_call::{CacheActionType, CacheResourceType, NodeCallData, UpdateCacheData};
use robustmq::raft::{
    is_slow_write, raft_write_timeout_sec, timeout_message, GroupState, MetaServiceError,
    MultiRaftManager, RaftGroup, RaftStateMachineName, WriteOutcome,
};

#[test]
fn empty_key_routes_to_shard_zero() {
    let group = RaftGroup::new("offset", 3);
    assert_eq!(group.route_shard(""), 0);
    let a = group.route_shard("group-a");
    assert!(a < 3);
    assert_eq!(group.route_shard("group-a"), a);
    let mut reg = MetricsRegistry::new();
    let manager = MultiRaftManager::new(3, 3);
    let plan = manager.write_offset(&mut reg, "", 30).unwrap();
    assert_eq!(plan.shard_name, "offset_0");
}

#[test]
fn group_size_is_at_least_one() {
    let group = RaftGroup::new("data", 0);
    assert_eq!(group.group_num, 1);
    assert_eq!(group.shard_names(), vec!["data_0".to_string()]);
}

#[test]
fn parse_group_names_and_aliases() {
    assert_eq!(RaftStateMachineName::parse_name("meta"), Ok(RaftStateMachineName::METADATA));
    assert_eq!(RaftStateMachineName::parse_name("mqtt"), Ok(RaftStateMachineName::DATA));
    assert_eq!(RaftStateMachineName::parse_name("offset_3"), Ok(RaftStateMachineName::OFFSET));
    assert_eq!(RaftStateMachineName::parse_name("metadata_0"), Ok(RaftStateMachineName::METADATA));
    assert_eq!(
        RaftStateMachineName::parse_name("journal_1"),
        Err("Invalid RaftStateMachineName: journal_1".to_string())
    );
    assert_eq!("data".parse::<RaftStateMachineName>(), Ok(RaftStateMachineName::DATA));
    assert_eq!(RaftStateMachineName::OFFSET.as_str(), "offset");
}

#[test]
fn resolve_shards_by_name_and_alias() {
    let manager = MultiRaftManager::new(2, 3);
    assert_eq!(manager.get_raft_node("meta"), Ok((RaftStateMachineName::METADATA, 0)));
    assert_eq!(manager.get_raft_node("metadata_0"), Ok((RaftStateMachineName::METADATA, 0)));
    assert_eq!(manager.get_raft_node("offset_1"), Ok((RaftStateMachineName::OFFSET, 1)));
    assert_eq!(manager.get_raft_node("data_2"), Ok((RaftStateMachineName::DATA, 2)));
    assert_eq!(manager.get_raft_node("mqtt"), Ok((RaftStateMachineName::DATA, 0)));
    assert_eq!(manager.get_raft_node("data"), Ok((RaftStateMachineName::DATA, 0)));
    assert_eq!(
        manager.get_raft_node("offset_2"),
        Err(MetaServiceError::CommonError("Unknown raft shard: offset_2".to_string()))
    );
}

#[test]
fn write_timeout_has_floor() {
    assert_eq!(raft_write_timeout_sec(1), 30);
    assert_eq!(raft_write_timeout_sec(45), 45);
    assert!(is_slow_write(1001));
    assert!(!is_slow_write(1000));
}

#[test]
fn timed_out_write_fails_and_counts() {
    let manager = MultiRaftManager::new(3, 3);
    let mut reg = MetricsRegistry::new();
    let plan = manager.write_offset(&mut reg, "g", 1).unwrap();
    assert_eq!(plan.timeout_sec, 30);
    let labels = vec![plan.shard_name.clone()];
    assert_eq!(reg.value("raft_write_requests", &labels), Some(1));
    let r = manager.offset.finish_write(&mut reg, &plan, "SetOffset", WriteOutcome::TimedOut);
    assert_eq!(
        r,
        Err(MetaServiceError::CommonError("Write offset timeout after 30s, data_type=SetOffset".to_string()))
    );
    assert_eq!(reg.value("raft_write_failures", &labels), Some(1));
    assert_eq!(reg.value("raft_write_success", &labels), None);
    assert_eq!(timeout_message("data", 7, "X"), "Write data timeout after 7s, data_type=X");
}

#[test]
fn applied_and_rejected_writes() {
    let manager = MultiRaftManager::new(1, 1);
    let mut reg = MetricsRegistry::new();
    let plan = manager.write_metadata(&mut reg, 30).unwrap();
    assert_eq!(plan.shard_name, "metadata_0");
    assert_eq!(manager.metadata.finish_write(&mut reg, &plan, "AddNode", WriteOutcome::Applied), Ok(()));
    assert_eq!(reg.value("raft_write_success", &vec!["metadata_0".to_string()]), Some(1));
    let r = manager.metadata.finish_write(&mut reg, &plan, "AddNode", WriteOutcome::Failed("not leader".to_string()));
    assert_eq!(r, Err(MetaServiceError::RaftWriteFailed("not leader".to_string())));
}

#[test]
fn stopped_group_rejects_writes_and_shutdown_is_idempotent() {
    let mut manager = MultiRaftManager::new(2, 2);
    manager.offset.start();
    assert_eq!(manager.offset.state, GroupState::Running);
    let first = manager.shutdown();
    assert_eq!(
        first,
        vec![RaftStateMachineName::DATA, RaftStateMachineName::OFFSET, RaftStateMachineName::METADATA]
    );
    assert!(manager.shutdown().is_empty());
    let mut reg = MetricsRegistry::new();
    assert_eq!(
        manager.write_offset(&mut reg, "k", 30).unwrap_err(),
        MetaServiceError::RaftNodeHasStopped("offset".to_string())
    );
    manager.offset.shutdown_complete();
    assert_eq!(manager.offset.state, GroupState::Stopped);
}

#[test]
fn cluster_readiness_over_seven_shards() {
    let manager = MultiRaftManager::new(3, 3);
    let names = manager.all_shard_names();
    assert_eq!(
        names,
        vec!["metadata_0", "offset_0", "offset_1", "offset_2", "data_0", "data_1", "data_2"]
            .into_iter()
            .map(String::from)
            .collect::<Vec<_>>()
    );
    let mut statuses: Vec<ShardStatus> = names
        .iter()
        .map(|n| ShardStatus { shard_name: n.clone(), running_ok: true, current_leader: 1 })
        .collect();
    statuses[4].current_leader = 0;
    match cluster_readiness(&statuses) {
        ClusterReadiness::NotReady { ready, total, not_ready } => {
            assert_eq!((ready, total), (6, 7));
            assert_eq!(not_ready, vec!["data_0".to_string()]);
        }
        other => panic!("unexpected {other:?}"),
    }
    statuses[4].current_leader = 2;
    match cluster_readiness(&statuses) {
        ClusterReadiness::Ready(pairs) => {
            assert_eq!(pairs.len(), 7);
            assert_eq!(pairs[4], ("data_0".to_string(), 2));
        }
        other => panic!("unexpected {other:?}"),
    }
    assert!(matches!(cluster_readiness(&Vec::new()), ClusterReadiness::Empty));
}

#[test]
fn write_and_replicate_node() {
    let manager = MultiRaftManager::new(1, 1);
    let mut reg = MetricsRegistry::new();
    let plan = manager.write_metadata(&mut reg, 30).unwrap();
    assert_eq!(plan.shard_name, "metadata_0");
    let notification = NodeCallData::UpdateCache(UpdateCacheData {
        action_type: CacheActionType::Create,
        resource_type: CacheResourceType::Node,
        data: Vec::new(),
    });
    assert_eq!(notification.worker_index(10), 0);
    let mut caches = vec![BrokerCache::new(), BrokerCache::new(), BrokerCache::new()];
    for cache in caches.iter_mut() {
        let node = BrokerNode {
            node_id: 42,
            node_ip: "a".to_string(),
            grpc_addr: "a:1".to_string(),
            roles: Vec::new(),
            extend: Vec::new(),
            register_time: 0,
        };
        cache.apply_node_update(CacheActionType::Create, node);
    }
    for cache in &caches {
        assert_eq!(cache.get_node(42).unwrap().grpc_addr, "a:1");
    }
}
