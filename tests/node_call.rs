use robustmq::node_call::{
    dispatch_batch, next_retry_step, KeyedCall, retry_backoff_ms, CacheActionType, CacheResourceType,
    DispatchTarget, LastWillMessageItem, NodeCallData, NodeChannelTable, RetryStep,
    UpdateCacheData, WorkerQueue, BATCH_SIZE, WORKER_THREAD_NUM,
};

fn update(data: u8) -> NodeCallData {
    NodeCallData::UpdateCache(UpdateCacheData {
        action_type: CacheActionType::Create,
        resource_type: CacheResourceType::Session,
        data: vec![data],
    })
}

fn last_will(client: &str, payload: &str) -> NodeCallData {
    NodeCallData::SendLastWillMessage(LastWillMessageItem {
        client_id: client.to_string(),
        last_will_message: payload.as_bytes().to_vec(),
    })
}

#[test]
fn partition_keys_pick_workers() {
    assert_eq!(update(1).partition_key(), None);
    assert_eq!(update(1).worker_index(WORKER_THREAD_NUM), 0);
    let delete = NodeCallData::DeleteSession("c1".to_string());
    let will = last_will("c1", "b");
    assert_eq!(delete.partition_key(), Some("c1"));
    let w = delete.worker_index(WORKER_THREAD_NUM);
    assert!(w >= 1 && w < WORKER_THREAD_NUM);
    assert_eq!(will.worker_index(WORKER_THREAD_NUM), w);
}

fn call_ids(call: &KeyedCall) -> (bool, Vec<String>) {
    match call {
        KeyedCall::DeleteSessions(ids) => (true, ids.clone()),
        KeyedCall::SendLastWills(items) => (false, items.iter().map(|i| i.client_id.clone()).collect()),
    }
}

#[test]
fn delete_session_goes_out_before_last_will() {
    let batch = vec![
        NodeCallData::DeleteSession("c1".to_string()),
        update(1),
        last_will("c1", "b"),
        NodeCallData::DeleteSession("c2".to_string()),
        update(2),
    ];
    let plan = dispatch_batch(batch);
    assert_eq!(plan.cache_updates.iter().map(|u| u.data[0]).collect::<Vec<_>>(), vec![1, 2]);
    let calls: Vec<(bool, Vec<String>)> = plan.calls.iter().map(call_ids).collect();
    assert_eq!(
        calls,
        vec![
            (true, vec!["c1".to_string()]),
            (false, vec!["c1".to_string()]),
            (true, vec!["c2".to_string()]),
        ]
    );
}

#[test]
fn last_will_queued_first_is_sent_first() {
    let batch = vec![
        last_will("c1", "b"),
        NodeCallData::DeleteSession("c1".to_string()),
        NodeCallData::DeleteSession("c2".to_string()),
    ];
    let plan = dispatch_batch(batch);
    assert!(plan.cache_updates.is_empty());
    let calls: Vec<(bool, Vec<String>)> = plan.calls.iter().map(call_ids).collect();
    assert_eq!(
        calls,
        vec![(false, vec!["c1".to_string()]), (true, vec!["c1".to_string(), "c2".to_string()])]
    );
}

#[test]
fn same_kind_batch_is_one_call() {
    let batch = vec![
        NodeCallData::DeleteSession("a".to_string()),
        NodeCallData::DeleteSession("b".to_string()),
        NodeCallData::DeleteSession("c".to_string()),
    ];
    let plan = dispatch_batch(batch);
    assert_eq!(plan.calls.len(), 1);
}

#[test]
fn worker_batches_hold_at_most_batch_size() {
    let mut q = WorkerQueue::new();
    for i in 0..150u32 {
        q.push(update((i % 256) as u8));
    }
    let first = q.next_batch();
    assert_eq!(first.len(), BATCH_SIZE);
    let second = q.next_batch();
    assert_eq!(second.len(), 50);
    match &second[0] {
        NodeCallData::UpdateCache(u) => assert_eq!(u.data, vec![100]),
        other => panic!("unexpected {other:?}"),
    }
    assert!(q.next_batch().is_empty());
}

#[test]
fn retries_back_off_exponentially() {
    assert_eq!(retry_backoff_ms(1), 50);
    assert_eq!(retry_backoff_ms(2), 100);
    assert_eq!(retry_backoff_ms(3), 200);
    assert_eq!(retry_backoff_ms(64), u64::MAX);
    assert_eq!(next_retry_step(1, true), RetryStep::Done);
    assert_eq!(next_retry_step(1, false), RetryStep::RetryAfter(50));
    assert_eq!(next_retry_step(2, false), RetryStep::RetryAfter(100));
    assert_eq!(next_retry_step(3, false), RetryStep::GiveUp);
}

#[test]
fn dispatcher_creates_channels_once_and_drops_dead_ones() {
    let mut table = NodeChannelTable::new();
    let plan = table.plan_dispatch(&vec![1, 2, 1]);
    assert_eq!(
        plan,
        vec![
            DispatchTarget { node_id: 1, created: true },
            DispatchTarget { node_id: 2, created: true },
            DispatchTarget { node_id: 1, created: false },
        ]
    );
    let plan = table.plan_dispatch(&vec![2, 3]);
    assert_eq!(plan[0].created, false);
    assert_eq!(plan[1].created, true);
    table.remove(2);
    assert!(!table.contains(2));
    assert!(table.contains(1) && table.contains(3));
    let plan = table.plan_dispatch(&vec![2]);
    assert!(plan[0].created);
}
