use robustmq::metrics::broker::{
    init as broker_init, record_runtime_busy_ratio_set, record_system_cpu_get, record_system_cpu_set,
    record_system_memory_get, record_system_process_cpu_get, record_system_process_cpu_set,
    record_system_process_memory_get, record_system_process_memory_set, RuntimeLabel,
};
use robustmq::metrics::delay_task::{
    init as delay_init, record_delay_task_created, record_delay_task_execute_failed,
    record_delay_task_executed,
};
use robustmq::metrics::raft::{
    init as raft_init, record_raft_apply_lag, record_rpc_failure, record_rpc_request,
    record_rpc_success, record_write_failure, record_write_request, record_write_success,
    RaftLabel, RaftRpcLabel,
};
use robustmq::metrics::MetricsRegistry;

fn labels(v: &[&str]) -> Vec<String> {
    v.iter().map(|s| s.to_string()).collect()
}

#[test]
fn test_raft_label_equality() {
    let label1 = RaftLabel {
        machine: "metadata".to_string(),
    };
    let label2 = RaftLabel {
        machine: "metadata".to_string(),
    };
    let label3 = RaftLabel {
        machine: "offset".to_string(),
    };

    assert_eq!(label1, label2);
    assert_ne!(label1, label3);
}

#[test]
fn test_raft_rpc_label_equality() {
    let label1 = RaftRpcLabel {
        machine: "metadata".to_string(),
        rpc_type: "append_entries".to_string(),
    };
    let label2 = RaftRpcLabel {
        machine: "metadata".to_string(),
        rpc_type: "append_entries".to_string(),
    };
    let label3 = RaftRpcLabel {
        machine: "offset".to_string(),
        rpc_type: "vote".to_string(),
    };

    assert_eq!(label1, label2);
    assert_ne!(label1, label3);
}

#[test]
fn test_raft_metrics() {
    let mut reg = MetricsRegistry::new();
    record_write_request(&mut reg, "metadata");
    record_write_request(&mut reg, "metadata");
    record_write_success(&mut reg, "metadata");
    record_write_failure(&mut reg, "mqtt");
    assert_eq!(reg.value("raft_write_requests", &labels(&["metadata"])), Some(2));
    assert_eq!(reg.value("raft_write_success", &labels(&["metadata"])), Some(1));
    assert_eq!(reg.value("raft_write_failures", &labels(&["mqtt"])), Some(1));
    assert_eq!(reg.value("raft_write_failures", &labels(&["metadata"])), None);
}

#[test]
fn test_raft_rpc_metrics() {
    let mut reg = MetricsRegistry::new();
    record_rpc_request(&mut reg, "metadata", "append_entries");
    record_rpc_success(&mut reg, "metadata", "append_entries");
    record_rpc_failure(&mut reg, "offset", "vote");
    assert_eq!(reg.value("raft_rpc_requests", &labels(&["metadata", "append_entries"])), Some(1));
    assert_eq!(reg.value("raft_rpc_success", &labels(&["metadata", "append_entries"])), Some(1));
    assert_eq!(reg.value("raft_rpc_failures", &labels(&["offset", "vote"])), Some(1));
    assert_eq!(reg.value("raft_rpc_failures", &labels(&["offset", "append_entries"])), None);
}

#[test]
fn raft_init_registers_zeroed_series() {
    let mut reg = MetricsRegistry::new();
    raft_init(&mut reg);
    for m in ["mqtt", "offset", "metadata"] {
        assert_eq!(reg.value("raft_apply_lag", &labels(&[m])), Some(0));
        assert_eq!(reg.value("raft_write_requests", &labels(&[m])), Some(0));
    }
    record_write_request(&mut reg, "offset");
    raft_init(&mut reg);
    assert_eq!(reg.value("raft_write_requests", &labels(&["offset"])), Some(1));
}

#[test]
fn apply_lag_is_difference_or_zero() {
    let mut reg = MetricsRegistry::new();
    record_raft_apply_lag(&mut reg, "offset_0", 12, 5);
    assert_eq!(reg.value("raft_apply_lag", &labels(&["offset_0"])), Some(7));
    assert_eq!(reg.value("raft_last_log_index", &labels(&["offset_0"])), Some(12));
    assert_eq!(reg.value("raft_last_applied", &labels(&["offset_0"])), Some(5));
    record_raft_apply_lag(&mut reg, "offset_0", 3, 5);
    assert_eq!(reg.value("raft_apply_lag", &labels(&["offset_0"])), Some(0));
}

#[test]
fn system_gauges_read_back() {
    let mut reg = MetricsRegistry::new();
    assert_eq!(record_system_cpu_get(&reg), 0);
    record_system_cpu_set(&mut reg, 42);
    record_system_process_cpu_set(&mut reg, 7);
    record_system_process_memory_set(&mut reg, 13);
    assert_eq!(record_system_cpu_get(&reg), 42);
    assert_eq!(record_system_process_cpu_get(&reg), 7);
    assert_eq!(record_system_process_memory_get(&reg), 13);
    assert_eq!(record_system_memory_get(&reg), 0);
}

#[test]
fn broker_init_zeroes_runtimes() {
    let mut reg = MetricsRegistry::new();
    record_runtime_busy_ratio_set(&mut reg, "meta", 55);
    broker_init(&mut reg);
    assert_eq!(reg.value("tokio_runtime_busy_ratio", &labels(&["meta"])), Some(0));
    assert_eq!(reg.value("tokio_runtime_alive_tasks", &labels(&["broker"])), Some(0));
    assert_eq!(reg.value("system_memory_usage", &labels(&[])), Some(0));
    let a = RuntimeLabel { runtime: "server".to_string() };
    let b = RuntimeLabel { runtime: "server".to_string() };
    assert_eq!(a, b);
}

#[test]
fn delay_task_counters() {
    let mut reg = MetricsRegistry::new();
    delay_init(&mut reg);
    assert_eq!(reg.value("delay_task_created", &labels(&[])), Some(0));
    record_delay_task_created(&mut reg);
    record_delay_task_executed(&mut reg, "MQTTSessionExpire");
    record_delay_task_execute_failed(&mut reg, "MQTTLastwillExpire");
    assert_eq!(reg.value("delay_task_created", &labels(&[])), Some(1));
    assert_eq!(reg.value("delay_task_executed", &labels(&["MQTTSessionExpire"])), Some(1));
    assert_eq!(reg.value("delay_task_execute_failed", &labels(&["MQTTLastwillExpire"])), Some(1));
}
