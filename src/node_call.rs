use vstd::prelude::*;
use crate::raft::{key_hash, key_hash_spec};

verus! {

/// Capacity of the global ingress channel.
pub const GLOBAL_CHANNEL_SIZE: usize = 10000;

/// Capacity of each broker's channel.
pub const NODE_CHANNEL_SIZE: usize = 5000;

/// Most messages one worker sends in one round.
pub const BATCH_SIZE: usize = 100;

/// Workers per broker: worker 0 takes unkeyed messages, the others keyed ones.
pub const WORKER_THREAD_NUM: usize = 10;

/// Attempts per RPC before a batch is dropped.
pub const RPC_MAX_RETRIES: u64 = 3;

/// Wait before the second attempt; it doubles for each further one.
pub const RPC_RETRY_BASE_MS: u64 = 50;

#[derive(Clone, Copy, Debug, PartialEq, Eq, Structural)]
pub enum CacheActionType {
    Create,
    Delete,
}

#[derive(Clone, Copy, Debug, PartialEq, Eq, Structural)]
pub enum CacheResourceType {
    Node,
    Session,
    Topic,
    Subscribe,
    User,
    Connector,
    Schema,
    SchemaResource,
    ClusterResourceConfig,
    Shard,
    Segment,
    SegmentMeta,
}

/// A cache change on every broker: what happened to which kind of resource, and
/// the encoded resource.
#[derive(Debug)]
pub struct UpdateCacheData {
    pub action_type: CacheActionType,
    pub resource_type: CacheResourceType,
    pub data: Vec<u8>,
}

/// A last-will message to publish on behalf of a client.
#[derive(Debug)]
pub struct LastWillMessageItem {
    pub client_id: String,
    pub last_will_message: Vec<u8>,
}

/// A notification from one broker to the others.
#[derive(Debug)]
pub enum NodeCallData {
    UpdateCache(UpdateCacheData),
    DeleteSession(String),
    SendLastWillMessage(LastWillMessageItem),
}

/// The key that orders messages: none for cache updates, the client id otherwise.
pub open spec fn key_of(d: NodeCallData) -> Option<Seq<char>> {
    match d {
        NodeCallData::UpdateCache(_) => None,
        NodeCallData::DeleteSession(c) => Some(c@),
        NodeCallData::SendLastWillMessage(item) => Some(item.client_id@),
    }
}

/// The worker that handles `d` among `n`: worker 0 for unkeyed messages, else
/// `1 + hash(key) mod (n - 1)`.
pub open spec fn worker_index_spec(d: NodeCallData, n: nat) -> nat {
    match key_of(d) {
        None => 0,
        Some(k) => 1 + (key_hash_spec(k) as nat) % ((n - 1) as nat),
    }
}

impl NodeCallData {
    pub fn partition_key(&self) -> (r: Option<&str>)
        ensures
            match r {
                Some(k) => key_of(*self) == Some(k@),
                None => key_of(*self) is None,
            },
    {
        match self {
            NodeCallData::UpdateCache(_) => None,
            NodeCallData::DeleteSession(client_id) => Some(client_id.as_str()),
            NodeCallData::SendLastWillMessage(item) => Some(item.client_id.as_str()),
        }
    }

    /// The worker, among `worker_num`, that serializes this message.
    pub fn worker_index(&self, worker_num: usize) -> (r: usize)
        requires
            worker_num >= 2,
        ensures
            r == worker_index_spec(*self, worker_num as nat),
            r < worker_num,
            key_of(*self) is None <==> r == 0,
    {
        match self.partition_key() {
            None => 0,
            Some(key) => (key_hash(key) % ((worker_num - 1) as u64)) as usize + 1,
        }
    }
}

/// The notification that tells every broker to apply a cache change.
pub fn update_cache_notification(action_type: CacheActionType, resource_type: CacheResourceType, data: Vec<u8>) -> (r: NodeCallData)
    ensures
        r == NodeCallData::UpdateCache(UpdateCacheData { action_type, resource_type, data }),
        key_of(r) is None,
{
    NodeCallData::UpdateCache(UpdateCacheData { action_type, resource_type, data })
}

/// Messages of `s` with ordering key `k`, in order.
pub open spec fn keyed(s: Seq<NodeCallData>, k: Seq<char>) -> Seq<NodeCallData>
    decreases s.len(),
{
    if s.len() == 0 {
        Seq::empty()
    } else if key_of(s.last()) == Some(k) {
        keyed(s.drop_last(), k).push(s.last())
    } else {
        keyed(s.drop_last(), k)
    }
}

pub open spec fn is_update(d: NodeCallData) -> bool {
    d is UpdateCache
}

/// The cache updates of `s`, in order.
pub open spec fn updates(s: Seq<NodeCallData>) -> Seq<NodeCallData>
    decreases s.len(),
{
    if s.len() == 0 {
        Seq::empty()
    } else if is_update(s.last()) {
        updates(s.drop_last()).push(s.last())
    } else {
        updates(s.drop_last())
    }
}

/// The messages of `s` that carry a client id (session deletions and last
/// wills), in order.
pub open spec fn keyed_messages(s: Seq<NodeCallData>) -> Seq<NodeCallData>
    decreases s.len(),
{
    if s.len() == 0 {
        Seq::empty()
    } else if is_update(s.last()) {
        keyed_messages(s.drop_last())
    } else {
        keyed_messages(s.drop_last()).push(s.last())
    }
}

/// One call to a broker with a run of keyed messages of one kind.
#[derive(Debug)]
pub enum KeyedCall {
    DeleteSessions(Vec<String>),
    SendLastWills(Vec<LastWillMessageItem>),
}

pub open spec fn deletes_of(v: Seq<String>) -> Seq<NodeCallData> {
    v.map_values(|c: String| NodeCallData::DeleteSession(c))
}

pub open spec fn wills_of(v: Seq<LastWillMessageItem>) -> Seq<NodeCallData> {
    v.map_values(|i: LastWillMessageItem| NodeCallData::SendLastWillMessage(i))
}

/// The messages a call carries, in order.
pub open spec fn call_messages(c: KeyedCall) -> Seq<NodeCallData> {
    match c {
        KeyedCall::DeleteSessions(v) => deletes_of(v@),
        KeyedCall::SendLastWills(v) => wills_of(v@),
    }
}

/// The messages of `cs`, call after call.
pub open spec fn flatten_calls(cs: Seq<KeyedCall>) -> Seq<NodeCallData>
    decreases cs.len(),
{
    if cs.len() == 0 {
        Seq::empty()
    } else {
        flatten_calls(cs.drop_last()) + call_messages(cs.last())
    }
}

proof fn lemma_flatten_push(cs: Seq<KeyedCall>, c: KeyedCall)
    ensures
        flatten_calls(cs.push(c)) == flatten_calls(cs) + call_messages(c),
{
    assert(cs.push(c).drop_last() =~= cs);
}

/// One batch as the calls a worker makes, in this order: one call with all
/// cache updates, then the calls in `calls`, each a run of session deletions or
/// of last wills, so that the messages of every client keep their order.
#[derive(Debug)]
pub struct DispatchPlan {
    pub cache_updates: Vec<UpdateCacheData>,
    pub calls: Vec<KeyedCall>,
}

impl DispatchPlan {
    pub open spec fn update_calls(&self) -> Seq<NodeCallData> {
        self.cache_updates@.map_values(|u: UpdateCacheData| NodeCallData::UpdateCache(u))
    }

    /// Every message of the plan in the order the worker sends them.
    pub open spec fn sent(&self) -> Seq<NodeCallData> {
        self.update_calls() + flatten_calls(self.calls@)
    }
}

/// Groups a batch into calls: all cache updates in one call (they carry no
/// client id), then the keyed messages in their batch order, one call per run
/// of the same kind. Consecutive calls differ in kind and none is empty.
pub fn dispatch_batch(batch: Vec<NodeCallData>) -> (r: DispatchPlan)
    ensures
        r.update_calls() == updates(batch@),
        flatten_calls(r.calls@) == keyed_messages(batch@),
        forall|i: int| 0 <= i < r.calls@.len() ==> call_messages(#[trigger] r.calls@[i]).len() > 0,
        forall|i: int| 0 <= i < r.calls@.len() - 1 ==> (#[trigger] r.calls@[i] is DeleteSessions) != (r.calls@[i + 1] is DeleteSessions),
        forall|k: Seq<char>| #[trigger] keyed(r.sent(), k) == keyed(batch@, k),
{
    let ghost input = batch@;
    let mut cache_updates: Vec<UpdateCacheData> = Vec::new();
    let mut calls: Vec<KeyedCall> = Vec::new();
    let mut cur_deletes: Vec<String> = Vec::new();
    let mut cur_wills: Vec<LastWillMessageItem> = Vec::new();
    let mut rest = batch;
    let mut taken: usize = 0;
    assert(input.subrange(0, 0) =~= Seq::<NodeCallData>::empty());
    assert(input.len() == rest.len());
    assert(flatten_calls(calls@) + deletes_of(cur_deletes@) + wills_of(cur_wills@) =~= Seq::<NodeCallData>::empty());
    while rest.len() > 0
        invariant
            input.len() <= usize::MAX,
            taken + rest@.len() == input.len(),
            rest@ == input.subrange(taken as int, input.len() as int),
            cache_updates@.map_values(|u: UpdateCacheData| NodeCallData::UpdateCache(u)) == updates(input.subrange(0, taken as int)),
            flatten_calls(calls@) + deletes_of(cur_deletes@) + wills_of(cur_wills@) == keyed_messages(input.subrange(0, taken as int)),
            cur_deletes@.len() == 0 || cur_wills@.len() == 0,
            calls@.len() > 0 ==> cur_deletes@.len() > 0 || cur_wills@.len() > 0,
            calls@.len() > 0 && cur_deletes@.len() > 0 ==> calls@.last() is SendLastWills,
            calls@.len() > 0 && cur_wills@.len() > 0 ==> calls@.last() is DeleteSessions,
            forall|i: int| 0 <= i < calls@.len() ==> call_messages(#[trigger] calls@[i]).len() > 0,
            forall|i: int| 0 <= i < calls@.len() - 1 ==> (#[trigger] calls@[i] is DeleteSessions) != (calls@[i + 1] is DeleteSessions),
        decreases rest@.len(),
    {
        let ghost u0 = cache_updates@;
        let ghost c0 = calls@;
        let ghost d0 = cur_deletes@;
        let ghost w0 = cur_wills@;
        let msg = rest.remove(0);
        let ghost pre = input.subrange(0, taken + 1);
        assert(pre.drop_last() =~= input.subrange(0, taken as int));
        assert(pre.last() == msg);
        assert(rest@ =~= input.subrange(taken + 1, input.len() as int));
        match msg {
            NodeCallData::UpdateCache(data) => {
                cache_updates.push(data);
                assert(cache_updates@.map_values(|u: UpdateCacheData| NodeCallData::UpdateCache(u))
                    =~= u0.map_values(|u: UpdateCacheData| NodeCallData::UpdateCache(u)).push(NodeCallData::UpdateCache(data)));
            },
            NodeCallData::DeleteSession(id) => {
                if cur_wills.len() > 0 {
                    let mut w: Vec<LastWillMessageItem> = Vec::new();
                    std::mem::swap(&mut w, &mut cur_wills);
                    let ghost wv = w@;
                    calls.push(KeyedCall::SendLastWills(w));
                    proof {
                        lemma_flatten_push(c0, KeyedCall::SendLastWills(w));
                        assert(deletes_of(d0) =~= Seq::<NodeCallData>::empty());
                        assert(wills_of(cur_wills@) =~= Seq::<NodeCallData>::empty());
                        assert(flatten_calls(calls@) =~= flatten_calls(c0) + wills_of(wv));
                        assert forall|i: int| 0 <= i < calls@.len() - 1 implies (#[trigger] calls@[i] is DeleteSessions) != (calls@[i + 1] is DeleteSessions) by {
                            if i < c0.len() - 1 {
                                assert(calls@[i] == c0[i] && calls@[i + 1] == c0[i + 1]);
                            }
                        }
                        assert forall|i: int| 0 <= i < calls@.len() implies call_messages(#[trigger] calls@[i]).len() > 0 by {
                            if i < c0.len() {
                                assert(calls@[i] == c0[i]);
                            }
                        }
                    }
                }
                let ghost d1 = cur_deletes@;
                cur_deletes.push(id);
                proof {
                    assert(deletes_of(cur_deletes@) =~= deletes_of(d1).push(NodeCallData::DeleteSession(id)));
                    assert(wills_of(cur_wills@) =~= Seq::<NodeCallData>::empty());
                    assert(flatten_calls(calls@) + deletes_of(cur_deletes@) + wills_of(cur_wills@)
                        =~= (flatten_calls(calls@) + deletes_of(d1) + wills_of(cur_wills@)).push(NodeCallData::DeleteSession(id)));
                }
            },
            NodeCallData::SendLastWillMessage(item) => {
                if cur_deletes.len() > 0 {
                    let mut d: Vec<String> = Vec::new();
                    std::mem::swap(&mut d, &mut cur_deletes);
                    let ghost dv = d@;
                    calls.push(KeyedCall::DeleteSessions(d));
                    proof {
                        lemma_flatten_push(c0, KeyedCall::DeleteSessions(d));
                        assert(wills_of(w0) =~= Seq::<NodeCallData>::empty());
                        assert(deletes_of(cur_deletes@) =~= Seq::<NodeCallData>::empty());
                        assert(flatten_calls(calls@) =~= flatten_calls(c0) + deletes_of(dv));
                        assert forall|i: int| 0 <= i < calls@.len() - 1 implies (#[trigger] calls@[i] is DeleteSessions) != (calls@[i + 1] is DeleteSessions) by {
                            if i < c0.len() - 1 {
                                assert(calls@[i] == c0[i] && calls@[i + 1] == c0[i + 1]);
                            }
                        }
                        assert forall|i: int| 0 <= i < calls@.len() implies call_messages(#[trigger] calls@[i]).len() > 0 by {
                            if i < c0.len() {
                                assert(calls@[i] == c0[i]);
                            }
                        }
                    }
                }
                let ghost w1 = cur_wills@;
                cur_wills.push(item);
                proof {
                    assert(wills_of(cur_wills@) =~= wills_of(w1).push(NodeCallData::SendLastWillMessage(item)));
                    assert(flatten_calls(calls@) + deletes_of(cur_deletes@) + wills_of(cur_wills@)
                        =~= (flatten_calls(calls@) + deletes_of(cur_deletes@) + wills_of(w1)).push(NodeCallData::SendLastWillMessage(item)));
                }
            },
        }
        taken += 1;
    }
    assert(input.subrange(0, taken as int) =~= input);
    let ghost c0 = calls@;
    if cur_deletes.len() > 0 {
        calls.push(KeyedCall::DeleteSessions(cur_deletes));
        proof {
            lemma_flatten_push(c0, calls@.last());
            assert(calls@.last() == KeyedCall::DeleteSessions(cur_deletes));
            assert(wills_of(cur_wills@) =~= Seq::<NodeCallData>::empty());
            assert(flatten_calls(calls@) =~= flatten_calls(c0) + deletes_of(cur_deletes@) + wills_of(cur_wills@));
            assert forall|i: int| 0 <= i < calls@.len() - 1 implies (#[trigger] calls@[i] is DeleteSessions) != (calls@[i + 1] is DeleteSessions) by {
                if i < c0.len() - 1 {
                    assert(calls@[i] == c0[i] && calls@[i + 1] == c0[i + 1]);
                }
            }
            assert forall|i: int| 0 <= i < calls@.len() implies call_messages(#[trigger] calls@[i]).len() > 0 by {
                if i < c0.len() {
                    assert(calls@[i] == c0[i]);
                }
            }
        }
    } else if cur_wills.len() > 0 {
        calls.push(KeyedCall::SendLastWills(cur_wills));
        proof {
            lemma_flatten_push(c0, calls@.last());
            assert(calls@.last() == KeyedCall::SendLastWills(cur_wills));
            assert(deletes_of(cur_deletes@) =~= Seq::<NodeCallData>::empty());
            assert(flatten_calls(calls@) =~= flatten_calls(c0) + deletes_of(cur_deletes@) + wills_of(cur_wills@));
            assert forall|i: int| 0 <= i < calls@.len() - 1 implies (#[trigger] calls@[i] is DeleteSessions) != (calls@[i + 1] is DeleteSessions) by {
                if i < c0.len() - 1 {
                    assert(calls@[i] == c0[i] && calls@[i + 1] == c0[i + 1]);
                }
            }
            assert forall|i: int| 0 <= i < calls@.len() implies call_messages(#[trigger] calls@[i]).len() > 0 by {
                if i < c0.len() {
                    assert(calls@[i] == c0[i]);
                }
            }
        }
    } else {
        assert(flatten_calls(calls@) + deletes_of(cur_deletes@) + wills_of(cur_wills@) =~= flatten_calls(calls@));
    }
    let plan = DispatchPlan { cache_updates, calls };
    proof {
        assert forall|k: Seq<char>| #[trigger] keyed(plan.sent(), k) == keyed(input, k) by {
            lemma_sent_keeps_key_order(input, k);
        }
    }
    plan
}

/// Messages a worker has received and not yet sent, oldest first.
pub struct WorkerQueue {
    pub pending: Vec<NodeCallData>,
}

impl WorkerQueue {
    pub fn new() -> (r: WorkerQueue)
        ensures
            r.pending@.len() == 0,
    {
        WorkerQueue { pending: Vec::new() }
    }

    pub fn push(&mut self, d: NodeCallData)
        ensures
            final(self).pending@ == old(self).pending@.push(d),
    {
        self.pending.push(d);
    }

    /// Takes the oldest messages, at most `BATCH_SIZE`, in arrival order.
    pub fn next_batch(&mut self) -> (r: Vec<NodeCallData>)
        ensures
            ({
                let n = if old(self).pending@.len() < BATCH_SIZE { old(self).pending@.len() } else { BATCH_SIZE as nat };
                &&& r@ == old(self).pending@.subrange(0, n as int)
                &&& final(self).pending@ == old(self).pending@.subrange(n as int, old(self).pending@.len() as int)
            }),
    {
        let ghost all = self.pending@;
        let mut r: Vec<NodeCallData> = Vec::new();
        while r.len() < BATCH_SIZE && self.pending.len() > 0
            invariant
                r@.len() <= BATCH_SIZE,
                r@ + self.pending@ == all,
            decreases self.pending@.len(),
        {
            let ghost p = self.pending@;
            let ghost q = r@;
            let d = self.pending.remove(0);
            r.push(d);
            assert(r@ + self.pending@ =~= q + p);
        }
        assert(r@ =~= all.subrange(0, r@.len() as int));
        assert(self.pending@ =~= all.subrange(r@.len() as int, all.len() as int));
        r
    }
}

/// `2^n`.
pub open spec fn doubling(n: nat) -> nat
    decreases n,
{
    if n == 0 {
        1
    } else {
        2 * doubling((n - 1) as nat)
    }
}

/// Wait before retrying after failed attempt `attempt` (from 1):
/// `RPC_RETRY_BASE_MS * 2^(attempt - 1)`, saturating at the largest `u64`.
pub open spec fn backoff_spec(attempt: nat) -> nat {
    let b: nat = (RPC_RETRY_BASE_MS as nat) * doubling((attempt - 1) as nat);
    if b > u64::MAX { u64::MAX as nat } else { b }
}

proof fn lemma_doubling_pos(n: nat)
    ensures
        doubling(n) >= 1,
    decreases n,
{
    if n > 0 {
        lemma_doubling_pos((n - 1) as nat);
    }
}

pub fn retry_backoff_ms(attempt: u64) -> (r: u64)
    requires
        attempt >= 1,
    ensures
        r == backoff_spec(attempt as nat),
{
    let mut b: u64 = RPC_RETRY_BASE_MS;
    let mut i: u64 = 1;
    while i < attempt
        invariant
            1 <= i <= attempt,
            b == backoff_spec(i as nat),
        decreases attempt - i,
    {
        proof {
            lemma_doubling_pos((i - 1) as nat);
            assert(doubling(i as nat) == 2 * doubling((i - 1) as nat));
        }
        b = if b > u64::MAX / 2 { u64::MAX } else { b * 2 };
        i += 1;
    }
    b
}

/// What to do after an attempt of an RPC.
#[derive(Clone, Copy, Debug, PartialEq, Eq, Structural)]
pub enum RetryStep {
    /// It succeeded.
    Done,
    /// Wait this many milliseconds, then try again.
    RetryAfter(u64),
    /// It failed for the last time; the batch is dropped.
    GiveUp,
}

/// The decision after attempt `attempt` (from 1) of an RPC.
pub fn next_retry_step(attempt: u64, succeeded: bool) -> (r: RetryStep)
    requires
        attempt >= 1,
    ensures
        succeeded ==> r == RetryStep::Done,
        !succeeded && attempt >= RPC_MAX_RETRIES ==> r == RetryStep::GiveUp,
        !succeeded && attempt < RPC_MAX_RETRIES ==> r == RetryStep::RetryAfter(backoff_spec(attempt as nat) as u64),
{
    if succeeded {
        RetryStep::Done
    } else if attempt >= RPC_MAX_RETRIES {
        RetryStep::GiveUp
    } else {
        RetryStep::RetryAfter(retry_backoff_ms(attempt))
    }
}

/// The brokers that have a channel, in the order they were added.
pub struct NodeChannelTable {
    pub nodes: Vec<u64>,
}

/// Where the dispatcher sends a message: the broker, and whether its channel and
/// workers must be created first.
#[derive(Clone, Copy, Debug, PartialEq, Eq, Structural)]
pub struct DispatchTarget {
    pub node_id: u64,
    pub created: bool,
}

impl NodeChannelTable {
    pub open spec fn has(&self, id: u64) -> bool {
        self.nodes@.contains(id)
    }

    pub fn new() -> (r: NodeChannelTable)
        ensures
            r.nodes@.len() == 0,
    {
        NodeChannelTable { nodes: Vec::new() }
    }

    pub fn contains(&self, id: u64) -> (r: bool)
        ensures
            r == self.has(id),
    {
        let mut i: usize = 0;
        while i < self.nodes.len()
            invariant
                i <= self.nodes@.len(),
                forall|j: int| 0 <= j < i ==> self.nodes@[j] != id,
            decreases self.nodes@.len() - i,
        {
            if self.nodes[i] == id {
                return true;
            }
            i += 1;
        }
        false
    }

    /// For each broker of the cache's list, in order, the target of one message;
    /// a broker without a channel gets one, marked `created` the first time.
    pub fn plan_dispatch(&mut self, node_list: &Vec<u64>) -> (r: Vec<DispatchTarget>)
        ensures
            r@.len() == node_list@.len(),
            forall|i: int| 0 <= i < r@.len() ==> #[trigger] r@[i].node_id == node_list@[i],
            forall|i: int| 0 <= i < r@.len() ==> (#[trigger] r@[i].created <==> !old(self).has(node_list@[i])
                && forall|j: int| 0 <= j < i ==> node_list@[j] != node_list@[i]),
            forall|id: u64| final(self).has(id) <==> (old(self).has(id) || node_list@.contains(id)),
    {
        let mut r: Vec<DispatchTarget> = Vec::new();
        let mut i: usize = 0;
        while i < node_list.len()
            invariant
                i <= node_list@.len(),
                r@.len() == i,
                forall|k: int| 0 <= k < i ==> #[trigger] r@[k].node_id == node_list@[k],
                forall|k: int| 0 <= k < i ==> (#[trigger] r@[k].created <==> !old(self).has(node_list@[k])
                    && forall|j: int| 0 <= j < k ==> node_list@[j] != node_list@[k]),
                forall|x: u64| #[trigger] self.nodes@.contains(x) <==> (old(self).has(x) || node_list@.subrange(0, i as int).contains(x)),
            decreases node_list@.len() - i,
        {
            let id = node_list[i];
            let ghost sub = node_list@.subrange(0, i as int);
            let ghost sub1 = node_list@.subrange(0, i + 1);
            assert(sub1 =~= sub.push(id));
            let ghost before = self.nodes@;
            assert(forall|x: u64| #[trigger] before.contains(x) <==> (old(self).has(x) || sub.contains(x)));
            let present = self.contains(id);
            if !present {
                self.nodes.push(id);
                assert forall|x: u64| self.has(x) <==> (before.contains(x) || x == id) by {
                    if x == id {
                        assert(self.nodes@[before.len() as int] == id);
                    }
                    if before.contains(x) {
                        let w = choose|w: int| 0 <= w < before.len() && before[w] == x;
                        assert(self.nodes@[w] == x);
                    }
                    if self.has(x) && x != id {
                        let w = choose|w: int| 0 <= w < self.nodes@.len() && self.nodes@[w] == x;
                        assert(before[w] == x);
                    }
                }
            }
            proof {
                assert forall|x: u64| sub1.contains(x) <==> (sub.contains(x) || x == id) by {
                    if sub.contains(x) {
                        let w = choose|w: int| 0 <= w < sub.len() && sub[w] == x;
                        assert(sub1[w] == x);
                    }
                    if sub1.contains(x) && x != id {
                        let w = choose|w: int| 0 <= w < sub1.len() && sub1[w] == x;
                        assert(sub[w] == x);
                    }
                    if x == id {
                        assert(sub1[i as int] == id);
                    }
                }
                if present {
                    assert(old(self).has(id) || sub.contains(id));
                    if !old(self).has(id) {
                        let w = choose|w: int| 0 <= w < sub.len() && sub[w] == id;
                        assert(node_list@[w] == id);
                    }
                } else {
                    assert forall|j: int| 0 <= j < i implies node_list@[j] != id by {
                        assert(sub[j] == node_list@[j]);
                    }
                }
                assert forall|x: u64| #[trigger] self.nodes@.contains(x) <==> (old(self).has(x) || sub1.contains(x)) by {
                    assert(before.contains(x) <==> (old(self).has(x) || sub.contains(x)));
                    assert(sub1.contains(x) <==> (sub.contains(x) || x == id));
                    if present {
                        assert(self.nodes@ == before);
                    } else {
                        assert(self.has(x) <==> (before.contains(x) || x == id));
                    }
                }
            }
            r.push(DispatchTarget { node_id: id, created: !present });
            i += 1;
        }
        assert(node_list@.subrange(0, i as int) =~= node_list@);
        r
    }

    /// Drops the channel of a broker that could not be reached.
    pub fn remove(&mut self, id: u64)
        ensures
            forall|x: u64| final(self).has(x) <==> (old(self).has(x) && x != id),
    {
        let ghost before = self.nodes@;
        let mut kept: Vec<u64> = Vec::new();
        let mut i: usize = 0;
        while i < self.nodes.len()
            invariant
                i <= self.nodes@.len(),
                self.nodes@ == before,
                forall|x: u64| #[trigger] kept@.contains(x) <==> (before.subrange(0, i as int).contains(x) && x != id),
            decreases self.nodes@.len() - i,
        {
            let v = self.nodes[i];
            let ghost k0 = kept@;
            let ghost sub = before.subrange(0, i as int);
            let ghost sub1 = before.subrange(0, i + 1);
            assert forall|x: u64| sub1.contains(x) <==> (sub.contains(x) || x == v) by {
                if sub.contains(x) {
                    let w = choose|w: int| 0 <= w < sub.len() && sub[w] == x;
                    assert(sub1[w] == x);
                }
                if sub1.contains(x) && x != v {
                    let w = choose|w: int| 0 <= w < sub1.len() && sub1[w] == x;
                    assert(sub[w] == x);
                }
                if x == v {
                    assert(sub1[i as int] == v);
                }
            }
            assert(forall|x: u64| #[trigger] k0.contains(x) <==> (sub.contains(x) && x != id));
            if v != id {
                kept.push(v);
                assert forall|x: u64| kept@.contains(x) <==> (k0.contains(x) || x == v) by {
                    if k0.contains(x) {
                        let w = choose|w: int| 0 <= w < k0.len() && k0[w] == x;
                        assert(kept@[w] == x);
                    }
                    if kept@.contains(x) && x != v {
                        let w = choose|w: int| 0 <= w < kept@.len() && kept@[w] == x;
                        assert(k0[w] == x);
                    }
                    if x == v {
                        assert(kept@[k0.len() as int] == v);
                    }
                }
            }
            assert forall|x: u64| #[trigger] kept@.contains(x) <==> (sub1.contains(x) && x != id) by {
                assert(k0.contains(x) <==> (sub.contains(x) && x != id));
                assert(sub1.contains(x) <==> (sub.contains(x) || x == v));
            }
            i += 1;
        }
        assert(before.subrange(0, i as int) =~= before);
        self.nodes = kept;
    }
}

/// Two messages with the same ordering key go to the same worker, so one worker
/// serializes all messages of a client.
pub proof fn lemma_same_key_same_worker(d1: NodeCallData, d2: NodeCallData, n: nat)
    requires
        key_of(d1) == key_of(d2),
    ensures
        worker_index_spec(d1, n) == worker_index_spec(d2, n),
{
}

proof fn lemma_keyed_concat(a: Seq<NodeCallData>, b: Seq<NodeCallData>, k: Seq<char>)
    ensures
        keyed(a + b, k) == keyed(a, k) + keyed(b, k),
    decreases b.len(),
{
    if b.len() == 0 {
        assert(a + b =~= a);
        assert(keyed(a, k) + keyed(b, k) =~= keyed(a, k));
    } else {
        lemma_keyed_concat(a, b.drop_last(), k);
        assert((a + b).drop_last() =~= a + b.drop_last());
        assert((a + b).last() == b.last());
        if key_of(b.last()) == Some(k) {
            assert(keyed(a, k) + keyed(b.drop_last(), k).push(b.last()) =~= (keyed(a, k) + keyed(b.drop_last(), k)).push(b.last()));
        }
    }
}

proof fn lemma_keyed_push(q: Seq<NodeCallData>, x: NodeCallData, k: Seq<char>)
    ensures
        keyed(q.push(x), k) == if key_of(x) == Some(k) { keyed(q, k).push(x) } else { keyed(q, k) },
{
    assert(q.push(x).drop_last() =~= q);
}

proof fn lemma_no_keyed_updates(s: Seq<NodeCallData>, k: Seq<char>)
    ensures
        keyed(updates(s), k) == Seq::<NodeCallData>::empty(),
    decreases s.len(),
{
    if s.len() > 0 {
        lemma_no_keyed_updates(s.drop_last(), k);
        if is_update(s.last()) {
            lemma_keyed_push(updates(s.drop_last()), s.last(), k);
        }
    }
}

proof fn lemma_keyed_messages(s: Seq<NodeCallData>, k: Seq<char>)
    ensures
        keyed(keyed_messages(s), k) == keyed(s, k),
    decreases s.len(),
{
    if s.len() > 0 {
        lemma_keyed_messages(s.drop_last(), k);
        if !is_update(s.last()) {
            lemma_keyed_push(keyed_messages(s.drop_last()), s.last(), k);
        }
    }
}

/// Delivery order per client: sending all cache updates first and then the
/// keyed messages in batch order delivers the messages of every client in the
/// order they were submitted.
pub proof fn lemma_sent_keeps_key_order(s: Seq<NodeCallData>, k: Seq<char>)
    ensures
        keyed(updates(s) + keyed_messages(s), k) == keyed(s, k),
{
    lemma_keyed_concat(updates(s), keyed_messages(s), k);
    lemma_no_keyed_updates(s, k);
    lemma_keyed_messages(s, k);
    assert(Seq::<NodeCallData>::empty() + keyed(s, k) =~= keyed(s, k));
}

} // verus!
