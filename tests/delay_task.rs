use robustmq::delay_task::{DelayTask, DelayTaskData, DelayTaskManager};
use robustmq::metrics::MetricsRegistry;

const NOW: u64 = 1_700_000_000;

fn session_task(id: &str, target: u64) -> DelayTask {
    DelayTask::build_persistent(id.to_string(), DelayTaskData::MQTTSessionExpire(id.to_string()), target, NOW)
}

#[test]
fn task_type_names() {
    let t = session_task("c1", NOW);
    assert_eq!(t.task_type_name(), "MQTTSessionExpire");
    let w = DelayTask::build_ephemeral("w".to_string(), DelayTaskData::MQTTLastwillExpire("c1".to_string()), NOW, NOW);
    assert_eq!(w.task_type_name(), "MQTTLastwillExpire");
    assert!(!w.persistent);
    assert_eq!(w.create_time, NOW);
}

#[test]
fn create_then_delete_leaves_no_trace() {
    let mut reg = MetricsRegistry::new();
    let mut m = DelayTaskManager::new(4);
    m.create_task(&mut reg, session_task("keep", NOW + 5));
    let id = m.create_task(&mut reg, session_task("c1", NOW + 60));
    assert_eq!(id, "c1");
    assert!(m.contains_task("c1"));
    assert_eq!(m.index.len(), 2);
    assert!(m.delete_task("c1"));
    assert!(!m.contains_task("c1"));
    assert_eq!(m.index.len(), 1);
    assert_eq!(m.queued.len(), 1);
    assert_eq!(m.queued[0].task.task_id, "keep");
    assert!(!m.delete_task("c1"));
}

#[test]
fn create_replaces_same_id_and_round_robins_shards() {
    let mut reg = MetricsRegistry::new();
    let mut m = DelayTaskManager::new(2);
    m.create_task(&mut reg, session_task("a", NOW + 1));
    m.create_task(&mut reg, session_task("b", NOW + 2));
    m.create_task(&mut reg, session_task("a", NOW + 3));
    assert_eq!(m.queued.len(), 2);
    assert_eq!(m.index.len(), 2);
    let shards: Vec<u32> = m.queued.iter().map(|q| q.shard).collect();
    assert_eq!(shards, vec![1, 0]);
    assert_eq!(m.queued[1].task.delay_target_time, NOW + 3);
    assert_eq!(reg.value("delay_task_created", &Vec::new()), Some(3));
}

#[test]
fn pop_takes_earliest_expired_of_shard() {
    let mut reg = MetricsRegistry::new();
    let mut m = DelayTaskManager::new(1);
    m.create_task(&mut reg, session_task("late", NOW + 50));
    m.create_task(&mut reg, session_task("early", NOW + 10));
    assert_eq!(m.next_deadline(0), Some(NOW + 10));
    assert!(m.pop_expired(0, NOW + 5).is_none());
    let t = m.pop_expired(0, NOW + 60).unwrap();
    assert_eq!(t.task_id, "early");
    assert!(!m.contains_task("early"));
    assert_eq!(m.index.len(), 2);
    m.finish_task("early");
    assert_eq!(m.index.len(), 1);
    assert_eq!(m.next_deadline(1), None);
}

#[test]
fn recovery_requeues_pending_task() {
    let stored = vec![session_task("c1", NOW + 60)];
    let mut m = DelayTaskManager::new(3);
    let run_now = m.recover(stored, NOW + 40);
    assert!(run_now.is_empty());
    assert!(m.contains_task("c1"));
    assert_eq!(m.next_deadline(0), Some(NOW + 60));
    let fired = m.pop_expired(0, NOW + 60).unwrap();
    assert!(matches!(fired.data, DelayTaskData::MQTTSessionExpire(ref c) if c == "c1"));
}

#[test]
fn recovery_runs_expired_task_at_once() {
    let stored = vec![session_task("c1", NOW + 60), session_task("c2", NOW + 100)];
    let mut m = DelayTaskManager::new(3);
    let run_now = m.recover(stored, NOW + 70);
    assert_eq!(run_now.len(), 1);
    assert_eq!(run_now[0].task_id, "c1");
    assert_eq!(NOW + 70 - run_now[0].delay_target_time, 10);
    assert!(!m.contains_task("c1"));
    assert!(m.contains_task("c2"));
    assert_eq!(m.index.len(), 2);
}

use robustmq::delay_task::{
    plan_lastwill_expire, plan_session_expire, read_retry_step, schedule_latency,
    should_log_progress, update_offsets_from_records, ReadStep, RecordPosition, SessionSnapshot,
    ShardCursor,
};
use robustmq::node_call::NodeCallData;

#[test]
fn update_offsets_from_records_moves_cursors_forward() {
    let data = vec![
        RecordPosition { shard: "s0".to_string(), offset: 4 },
        RecordPosition { shard: "s1".to_string(), offset: 0 },
        RecordPosition { shard: "s0".to_string(), offset: 2 },
    ];
    let mut offsets = vec![ShardCursor { shard: "s1".to_string(), next_offset: 7 }];
    update_offsets_from_records(&data, &mut offsets);
    let get = |name: &str| offsets.iter().rev().find(|c| c.shard == name).map(|c| c.next_offset);
    assert_eq!(get("s0"), Some(5));
    assert_eq!(get("s1"), Some(7));
}

#[test]
fn read_retries_abort_on_third_failure() {
    let mut count = 0u32;
    assert_eq!(read_retry_step(&mut count, false), ReadStep::Retry);
    assert_eq!(read_retry_step(&mut count, false), ReadStep::Retry);
    assert_eq!(read_retry_step(&mut count, true), ReadStep::Data);
    assert_eq!(count, 0);
    read_retry_step(&mut count, false);
    read_retry_step(&mut count, false);
    assert_eq!(read_retry_step(&mut count, false), ReadStep::Abort);
}

#[test]
fn progress_and_latency() {
    assert!(should_log_progress(1000, 0));
    assert!(!should_log_progress(1999, 1000));
    assert_eq!(schedule_latency(NOW + 70, NOW + 60), 10);
    assert_eq!(schedule_latency(NOW, NOW + 60), 0);
}

#[test]
fn session_expiry_schedules_or_sends_last_will() {
    let plan = plan_session_expire("c1", None, NOW);
    assert!(plan.notify.is_none() && plan.schedule.is_none() && !plan.send_stored_last_will);

    let snap = SessionSnapshot { in_cache: true, last_will_delay_interval: Some(30) };
    let plan = plan_session_expire("c1", Some(snap), NOW);
    assert!(plan.delete_from_cache && !plan.delete_from_store);
    assert!(matches!(plan.notify, Some(NodeCallData::DeleteSession(ref c)) if c == "c1"));
    let task = plan.schedule.unwrap();
    assert_eq!(task.delay_target_time, NOW + 30);
    assert_eq!(task.task_id, "c1");
    assert!(task.persistent);
    assert!(!plan.send_stored_last_will);

    let snap = SessionSnapshot { in_cache: false, last_will_delay_interval: None };
    let plan = plan_session_expire("c2", Some(snap), NOW);
    assert!(plan.delete_from_store && plan.schedule.is_none() && plan.send_stored_last_will);

    assert!(plan_lastwill_expire("c1", None).is_none());
    match plan_lastwill_expire("c1", Some(b"bye".to_vec())) {
        Some(NodeCallData::SendLastWillMessage(item)) => {
            assert_eq!(item.client_id, "c1");
            assert_eq!(item.last_will_message, b"bye".to_vec());
        }
        other => panic!("unexpected {other:?}"),
    }
}

use robustmq::delay_task::{get_session, session_snapshot, MqttSession};

#[test]
fn session_lookup_prefers_cache() {
    let cached = MqttSession { client_id: "c1".to_string(), last_will_delay_interval: Some(5) };
    let stored = MqttSession { client_id: "c1".to_string(), last_will_delay_interval: None };
    let found = get_session(Some(cached), Some(stored));
    assert_eq!(session_snapshot(&found), Some(SessionSnapshot { in_cache: true, last_will_delay_interval: Some(5) }));
    let stored = MqttSession { client_id: "c1".to_string(), last_will_delay_interval: None };
    let found = get_session(None, Some(stored));
    assert_eq!(session_snapshot(&found), Some(SessionSnapshot { in_cache: false, last_will_delay_interval: None }));
    assert!(get_session(None, None).is_none());
}
