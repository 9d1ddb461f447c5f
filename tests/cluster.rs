use robustmq::cluster::{
    expired_nodes, heartbeat_action, BrokerCache, BrokerNode, BrokerRole,
    HeartbeatAction, HeartbeatOutcome, NodeHeartbeat,
};
use robustmq::text::text_contains;
use robustmq::pool::{ClientPool, LeaderCache, PoolHealthStatus, ServiceKind, DEFAULT_CONNECTION_TIMEOUT_SECS};

fn node(id: u64, addr: &str) -> BrokerNode {
    BrokerNode {
        node_id: id,
        node_ip: "127.0.0.1".to_string(),
        grpc_addr: addr.to_string(),
        roles: vec![BrokerRole::Mqtt],
        extend: Vec::new(),
        register_time: 1,
    }
}

#[test]
fn heartbeat_decisions() {
    assert_eq!(heartbeat_action(&HeartbeatOutcome::Succeeded), HeartbeatAction::Nothing);
    assert_eq!(
        heartbeat_action(&HeartbeatOutcome::Failed("Node 3 does not exist".to_string())),
        HeartbeatAction::ReRegister
    );
    assert_eq!(
        heartbeat_action(&HeartbeatOutcome::Failed("connection refused".to_string())),
        HeartbeatAction::ReportError
    );
    assert_eq!(heartbeat_action(&HeartbeatOutcome::TimedOut), HeartbeatAction::ReportTimeout);
    assert!(text_contains("abc", ""));
    assert!(!text_contains("ab", "abc"));
    assert!(text_contains("xxabc", "abc"));
}

#[test]
fn register_then_unregister_is_no_op() {
    let mut cache = BrokerCache::new();
    cache.add_node(node(1, "a:1"));
    let before = cache.node_list();
    cache.add_node(node(7, "b:1"));
    assert_eq!(cache.get_node(7).unwrap().grpc_addr, "b:1");
    cache.remove_node(7);
    assert_eq!(cache.node_list(), before);
    assert!(cache.get_node(7).is_none());
    cache.add_node(node(1, "a:2"));
    assert_eq!(cache.node_list(), vec![1]);
    assert_eq!(cache.get_node(1).unwrap().grpc_addr, "a:2");
}

#[test]
fn liveness_expiry() {
    let beats = vec![
        NodeHeartbeat { node_id: 1, last_heartbeat_ms: 1000 },
        NodeHeartbeat { node_id: 2, last_heartbeat_ms: 9000 },
        NodeHeartbeat { node_id: 3, last_heartbeat_ms: 4000 },
    ];
    assert_eq!(expired_nodes(&beats, 10_000, 6000), vec![1]);
    assert_eq!(expired_nodes(&beats, 10_000, 5999), vec![1, 3]);
}

#[test]
fn leader_cache_set_get_clear() {
    let mut c = LeaderCache::new();
    assert_eq!(c.get_leader_addr("n1:9000"), None);
    c.set_leader_addr("n1:9000".to_string(), "n2:9000".to_string());
    c.set_leader_addr("n3:9000".to_string(), "n2:9000".to_string());
    c.set_leader_addr("n1:9000".to_string(), "n3:9000".to_string());
    assert_eq!(c.get_leader_addr("n1:9000"), Some("n3:9000".to_string()));
    assert_eq!(c.get_leader_addr("n3:9000"), Some("n2:9000".to_string()));
    c.clear_leader_cache();
    assert_eq!(c.get_leader_addr("n3:9000"), None);
}

#[test]
fn pool_registry_and_health() {
    let mut pools = ClientPool::new(8);
    assert_eq!(pools.connection_timeout_secs, DEFAULT_CONNECTION_TIMEOUT_SECS);
    assert!(pools.get_or_create(ServiceKind::BrokerMqtt, "a:1"));
    assert!(!pools.get_or_create(ServiceKind::BrokerMqtt, "a:1"));
    assert!(pools.get_or_create(ServiceKind::MetaInner, "a:1"));
    assert_eq!(pools.get_pool_count(), 2);
    assert!(pools.clear_mqtt_broker_pool("a:1"));
    assert!(!pools.clear_mqtt_broker_pool("a:1"));
    pools.set_leader_addr("f:1".to_string(), "l:1".to_string());
    assert_eq!(pools.get_leader_addr("f:1"), Some("l:1".to_string()));
    pools.clear_leader_cache();
    assert_eq!(pools.get_leader_addr("f:1"), None);
    let slow = ClientPool::new_with_timeout(4, 3);
    assert_eq!(slow.connection_timeout_secs, 3);
    assert_eq!(pools.get_pool_count(), 1);
    let h = PoolHealthStatus::of_pool("a:1", 8, 2, 2, 0);
    assert!(!h.is_healthy);
    let h = PoolHealthStatus::of_listed_pool("a:1", 8, 2, 2, 0);
    assert!(h.is_healthy);
    assert_eq!(h.addr, "a:1");
}

use robustmq::cluster::{node_does_not_exist_message, ClusterError, NodeLiveness};
use robustmq::node_call::{update_cache_notification, CacheActionType, CacheResourceType, NodeCallData};

#[test]
fn unknown_node_heartbeat_leads_to_reregistration() {
    let mut cache = BrokerCache::new();
    cache.add_node(node(1, "a:1"));
    let mut liveness = NodeLiveness::new();
    assert_eq!(liveness.heartbeat_by_req(&cache, 1, 500), Ok(()));
    assert_eq!(liveness.heartbeats.len(), 1);
    let err = liveness.heartbeat_by_req(&cache, 3, 600).unwrap_err();
    assert_eq!(err, ClusterError::NodeDoesNotExist(3));
    let err = err.message();
    assert_eq!(err, "Node 3 does not exist");
    assert_eq!(node_does_not_exist_message(42), "Node 42 does not exist");
    assert_eq!(heartbeat_action(&HeartbeatOutcome::Failed(err)), HeartbeatAction::ReRegister);
    liveness.report_broker_heart(1, 900);
    let last = liveness.heartbeats.iter().rev().find(|h| h.node_id == 1).unwrap();
    assert_eq!(last.last_heartbeat_ms, 900);
}

#[test]
fn cache_update_notifications_are_unkeyed() {
    let n = update_cache_notification(CacheActionType::Delete, CacheResourceType::Node, vec![7]);
    assert_eq!(n.partition_key(), None);
    match n {
        NodeCallData::UpdateCache(u) => {
            assert_eq!(u.action_type, CacheActionType::Delete);
            assert_eq!(u.resource_type, CacheResourceType::Node);
            assert_eq!(u.data, vec![7]);
        }
        other => panic!("unexpected {other:?}"),
    }
}

use robustmq::cluster::{register_node_by_req, un_register_node_by_req};
use robustmq::metrics::MetricsRegistry;
use robustmq::raft::MultiRaftManager;

#[test]
fn registration_writes_metadata_and_notifies() {
    let raft = MultiRaftManager::new(2, 2);
    let mut reg = MetricsRegistry::new();
    let mut liveness = NodeLiveness::new();
    let change = register_node_by_req(&mut liveness, &raft, &mut reg, 42, vec![1, 2], 1000, 30).unwrap();
    assert_eq!(change.plan.shard_name, "metadata_0");
    assert_eq!(change.data_type, "ClusterAddNode");
    match change.notification {
        NodeCallData::UpdateCache(u) => {
            assert_eq!((u.action_type, u.resource_type, u.data), (CacheActionType::Create, CacheResourceType::Node, vec![1, 2]));
        }
        other => panic!("unexpected {other:?}"),
    }
    let mut cache = BrokerCache::new();
    assert!(un_register_node_by_req(&cache, &raft, &mut reg, 42, vec![1, 2], 30).unwrap().is_none());
    cache.add_node(node(42, "a:1"));
    let change = un_register_node_by_req(&cache, &raft, &mut reg, 42, vec![1, 2], 30).unwrap().unwrap();
    assert_eq!(change.data_type, "ClusterDeleteNode");
    assert!(matches!(change.notification, NodeCallData::UpdateCache(ref u) if u.action_type == CacheActionType::Delete));
}

#[test]
fn liveness_uses_latest_heartbeat() {
    let mut liveness = NodeLiveness::new();
    liveness.report_broker_heart(1, 1000);
    liveness.report_broker_heart(2, 1000);
    liveness.report_broker_heart(1, 9000);
    assert_eq!(liveness.expired(10_000, 5000), vec![2]);
    liveness.forget(2);
    assert!(liveness.expired(10_000, 5000).is_empty());
    assert!(liveness.expired(20_000, 5000) == vec![1]);
}

#[test]
fn unregistering_a_known_node_plans_the_delete() {
    let raft = MultiRaftManager::new(1, 1);
    let mut reg = MetricsRegistry::new();
    let mut cache = BrokerCache::new();
    cache.add_node(node(9, "z:1"));
    let change = un_register_node_by_req(&cache, &raft, &mut reg, 9, vec![9], 30).unwrap().unwrap();
    assert_eq!(change.plan.shard_name, "metadata_0");
    assert_eq!(reg.value("raft_write_requests", &vec!["metadata_0".to_string()]), Some(1));
}
