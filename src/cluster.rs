use vstd::prelude::*;
use crate::keys::{decimal, push_decimal};
use crate::keys::shard_name_spec;
use crate::metrics::{bumped, MetricsRegistry};
use crate::node_call::{update_cache_notification, CacheActionType, CacheResourceType, NodeCallData, UpdateCacheData};
use crate::raft::{MetaServiceError, MultiRaftManager, WritePlan};
use crate::text::{contains_text, occurs_at, text_contains};

verus! {

/// Seconds between two heartbeats, and the timeout of one heartbeat call.
pub const HEARTBEAT_INTERVAL_SEC: u64 = 3;

/// Seconds between two polls of the meta service's readiness.
pub const READINESS_POLL_INTERVAL_SEC: u64 = 1;

/// How one heartbeat call ended.
#[derive(Debug)]
pub enum HeartbeatOutcome {
    Succeeded,
    /// The meta service answered with an error message.
    Failed(String),
    /// No answer within the heartbeat timeout.
    TimedOut,
}

/// What the heartbeat loop does next.
#[derive(Clone, Copy, Debug, PartialEq, Eq, Structural)]
pub enum HeartbeatAction {
    /// Nothing to do.
    Nothing,
    /// The meta service no longer knows this node: register it again.
    ReRegister,
    /// Report the error and wait for the next beat.
    ReportError,
    /// Report that the meta service may be unresponsive.
    ReportTimeout,
}

/// An error names a missing node when it mentions both `Node` and `does not exist`.
pub open spec fn is_missing_node_error(msg: Seq<char>) -> bool {
    contains_text(msg, "Node"@) && contains_text(msg, "does not exist"@)
}

pub fn heartbeat_action(outcome: &HeartbeatOutcome) -> (r: HeartbeatAction)
    ensures
        match *outcome {
            HeartbeatOutcome::Succeeded => r == HeartbeatAction::Nothing,
            HeartbeatOutcome::Failed(m) => r == if is_missing_node_error(m@) {
                HeartbeatAction::ReRegister
            } else {
                HeartbeatAction::ReportError
            },
            HeartbeatOutcome::TimedOut => r == HeartbeatAction::ReportTimeout,
        },
{
    match outcome {
        HeartbeatOutcome::Succeeded => HeartbeatAction::Nothing,
        HeartbeatOutcome::Failed(m) => {
            if text_contains(m.as_str(), "Node") && text_contains(m.as_str(), "does not exist") {
                HeartbeatAction::ReRegister
            } else {
                HeartbeatAction::ReportError
            }
        },
        HeartbeatOutcome::TimedOut => HeartbeatAction::ReportTimeout,
    }
}

/// The roles a broker process plays.
#[derive(Clone, Copy, Debug, PartialEq, Eq, Structural)]
pub enum BrokerRole {
    Mqtt,
    Journal,
    Meta,
}

/// A broker of the cluster, unique by `node_id`.
#[derive(Debug)]
pub struct BrokerNode {
    pub node_id: u64,
    pub node_ip: String,
    pub grpc_addr: String,
    pub roles: Vec<BrokerRole>,
    pub extend: Vec<u8>,
    pub register_time: u64,
}

/// `s` without the nodes whose id is `id`.
pub open spec fn without_node(s: Seq<BrokerNode>, id: u64) -> Seq<BrokerNode>
    decreases s.len(),
{
    if s.len() == 0 {
        Seq::empty()
    } else if s.last().node_id == id {
        without_node(s.drop_last(), id)
    } else {
        without_node(s.drop_last(), id).push(s.last())
    }
}

/// The node of `s` with id `id` (the last one added), if any.
pub open spec fn node_of(s: Seq<BrokerNode>, id: u64) -> Option<BrokerNode>
    decreases s.len(),
{
    if s.len() == 0 {
        None
    } else if s.last().node_id == id {
        Some(s.last())
    } else {
        node_of(s.drop_last(), id)
    }
}

proof fn lemma_without_node(s: Seq<BrokerNode>, id: u64, other: u64)
    ensures
        node_of(without_node(s, id), id) is None,
        other != id ==> node_of(without_node(s, id), other) == node_of(s, other),
    decreases s.len(),
{
    if s.len() > 0 {
        lemma_without_node(s.drop_last(), id, other);
        let w = without_node(s.drop_last(), id);
        if s.last().node_id != id {
            assert(w.push(s.last()).drop_last() =~= w);
        }
    }
}

proof fn lemma_without_node_absent(s: Seq<BrokerNode>, id: u64)
    requires
        node_of(s, id) is None,
    ensures
        without_node(s, id) == s,
    decreases s.len(),
{
    if s.len() > 0 {
        lemma_without_node_absent(s.drop_last(), id);
        assert(s.drop_last().push(s.last()) =~= s);
    }
}

proof fn lemma_without_node_idempotent(s: Seq<BrokerNode>, id: u64)
    ensures
        without_node(without_node(s, id), id) == without_node(s, id),
{
    lemma_without_node(s, id, id);
    lemma_without_node_absent(without_node(s, id), id);
}

/// The brokers this process knows of, kept up to date by node notifications.
pub struct BrokerCache {
    pub nodes: Vec<BrokerNode>,
}

impl BrokerCache {
    pub fn new() -> (r: BrokerCache)
        ensures
            r.nodes@.len() == 0,
    {
        BrokerCache { nodes: Vec::new() }
    }

    /// Adds a node, replacing one with the same id.
    pub fn add_node(&mut self, node: BrokerNode)
        ensures
            final(self).nodes@ == without_node(old(self).nodes@, node.node_id).push(node),
            node_of(final(self).nodes@, node.node_id) == Some(node),
    {
        self.remove_node(node.node_id);
        self.nodes.push(node);
        assert(self.nodes@.drop_last() =~= without_node(old(self).nodes@, node.node_id));
    }

    /// Removes the node with id `id`, if any.
    pub fn remove_node(&mut self, id: u64)
        ensures
            final(self).nodes@ == without_node(old(self).nodes@, id),
            node_of(final(self).nodes@, id) is None,
            forall|other: u64| other != id ==> #[trigger] node_of(final(self).nodes@, other) == node_of(old(self).nodes@, other),
    {
        let ghost all = self.nodes@;
        let mut kept: Vec<BrokerNode> = Vec::new();
        let mut rest = Vec::new();
        std::mem::swap(&mut self.nodes, &mut rest);
        let mut seen: usize = 0;
        assert(all.subrange(0, 0) =~= Seq::<BrokerNode>::empty());
        assert(rest.len() == all.len());
        while rest.len() > 0
            invariant
                all.len() <= usize::MAX,
                seen + rest@.len() == all.len(),
                rest@ == all.subrange(seen as int, all.len() as int),
                kept@ == without_node(all.subrange(0, seen as int), id),
            decreases rest@.len(),
        {
            let n = rest.remove(0);
            let ghost pre = all.subrange(0, seen + 1);
            assert(pre.drop_last() =~= all.subrange(0, seen as int));
            assert(pre.last() == n);
            assert(rest@ =~= all.subrange(seen + 1, all.len() as int));
            if n.node_id != id {
                kept.push(n);
            }
            seen += 1;
        }
        assert(all.subrange(0, seen as int) =~= all);
        self.nodes = kept;
        proof {
            assert forall|other: u64| other != id implies #[trigger] node_of(self.nodes@, other) == node_of(all, other) by {
                lemma_without_node(all, id, other);
            }
            lemma_without_node(all, id, id);
        }
    }

    /// Applies a node notification: `Create` adds the node, `Delete` removes it.
    pub fn apply_node_update(&mut self, action: CacheActionType, node: BrokerNode)
        ensures
            action == CacheActionType::Create ==> final(self).nodes@ == without_node(old(self).nodes@, node.node_id).push(node),
            action == CacheActionType::Delete ==> final(self).nodes@ == without_node(old(self).nodes@, node.node_id),
    {
        match action {
            CacheActionType::Create => self.add_node(node),
            CacheActionType::Delete => self.remove_node(node.node_id),
        }
    }

    pub fn get_node(&self, id: u64) -> (r: Option<&BrokerNode>)
        ensures
            match r {
                Some(n) => node_of(self.nodes@, id) == Some(*n),
                None => node_of(self.nodes@, id) is None,
            },
    {
        let mut i: usize = self.nodes.len();
        assert(self.nodes@.subrange(0, i as int) =~= self.nodes@);
        while i > 0
            invariant
                i <= self.nodes@.len(),
                node_of(self.nodes@, id) == node_of(self.nodes@.subrange(0, i as int), id),
            decreases i,
        {
            let ghost pre = self.nodes@.subrange(0, i as int);
            assert(pre.last() == self.nodes@[i - 1]);
            if self.nodes[i - 1].node_id == id {
                return Some(&self.nodes[i - 1]);
            }
            assert(pre.drop_last() =~= self.nodes@.subrange(0, i - 1));
            i -= 1;
        }
        None
    }

    /// The ids of all known nodes, in the order they were added.
    pub fn node_list(&self) -> (r: Vec<u64>)
        ensures
            r@ == self.nodes@.map_values(|n: BrokerNode| n.node_id),
    {
        let mut r: Vec<u64> = Vec::new();
        let mut i: usize = 0;
        while i < self.nodes.len()
            invariant
                i <= self.nodes@.len(),
                r@ == self.nodes@.subrange(0, i as int).map_values(|n: BrokerNode| n.node_id),
            decreases self.nodes@.len() - i,
        {
            r.push(self.nodes[i].node_id);
            i += 1;
            assert(r@ =~= self.nodes@.subrange(0, i as int).map_values(|n: BrokerNode| n.node_id));
        }
        assert(self.nodes@.subrange(0, i as int) =~= self.nodes@);
        r
    }
}

/// Registering a node and then unregistering it leaves the cache as if neither
/// had happened, for a node the cache did not know.
pub proof fn lemma_register_then_unregister(nodes: Seq<BrokerNode>, n: BrokerNode)
    requires
        node_of(nodes, n.node_id) is None,
    ensures
        without_node(without_node(nodes, n.node_id).push(n), n.node_id) == nodes,
{
    let w = without_node(nodes, n.node_id);
    lemma_without_node_absent(nodes, n.node_id);
    assert(w.push(n).drop_last() =~= w);
    lemma_without_node_idempotent(nodes, n.node_id);
}

/// When a broker last reported, in milliseconds.
#[derive(Clone, Copy, Debug, PartialEq, Eq, Structural)]
pub struct NodeHeartbeat {
    pub node_id: u64,
    pub last_heartbeat_ms: u64,
}

/// A broker is dead when it has not reported for longer than the timeout.
pub open spec fn is_expired(h: NodeHeartbeat, now_ms: u64, timeout_ms: u64) -> bool {
    now_ms > h.last_heartbeat_ms && now_ms - h.last_heartbeat_ms > timeout_ms
}

/// The ids of the entries of `s` that are expired, in order.
pub open spec fn expired_ids(s: Seq<NodeHeartbeat>, now_ms: u64, timeout_ms: u64) -> Seq<u64>
    decreases s.len(),
{
    if s.len() == 0 {
        Seq::empty()
    } else if is_expired(s.last(), now_ms, timeout_ms) {
        expired_ids(s.drop_last(), now_ms, timeout_ms).push(s.last().node_id)
    } else {
        expired_ids(s.drop_last(), now_ms, timeout_ms)
    }
}

/// The ids of the heartbeat entries older than `timeout_ms`, in list order.
pub fn expired_nodes(heartbeats: &Vec<NodeHeartbeat>, now_ms: u64, timeout_ms: u64) -> (r: Vec<u64>)
    ensures
        r@ == expired_ids(heartbeats@, now_ms, timeout_ms),
{
    let mut r: Vec<u64> = Vec::new();
    let mut i: usize = 0;
    assert(heartbeats@.subrange(0, 0) =~= Seq::<NodeHeartbeat>::empty());
    while i < heartbeats.len()
        invariant
            i <= heartbeats@.len(),
            r@ == expired_ids(heartbeats@.subrange(0, i as int), now_ms, timeout_ms),
        decreases heartbeats@.len() - i,
    {
        let ghost pre = heartbeats@.subrange(0, i + 1);
        assert(pre.drop_last() =~= heartbeats@.subrange(0, i as int));
        assert(pre.last() == heartbeats@[i as int]);
        let h = heartbeats[i];
        if now_ms > h.last_heartbeat_ms && now_ms - h.last_heartbeat_ms > timeout_ms {
            r.push(h.node_id);
        }
        i += 1;
    }
    assert(heartbeats@.subrange(0, i as int) =~= heartbeats@);
    r
}

proof fn lemma_push_contains(s: Seq<u64>, x: u64)
    ensures
        forall|y: u64| #[trigger] s.push(x).contains(y) <==> (s.contains(y) || y == x),
{
    assert forall|y: u64| #[trigger] s.push(x).contains(y) <==> (s.contains(y) || y == x) by {
        if s.contains(y) {
            let w = choose|w: int| 0 <= w < s.len() && s[w] == y;
            assert(s.push(x)[w] == y);
        }
        if y == x {
            assert(s.push(x)[s.len() as int] == y);
        }
        if s.push(x).contains(y) && y != x {
            let w = choose|w: int| 0 <= w < s.len() + 1 && s.push(x)[w] == y;
            assert(s[w] == y);
        }
    }
}

/// The latest heartbeat, if any, is older than the timeout.
pub open spec fn last_expired(t: Option<u64>, now_ms: u64, timeout_ms: u64) -> bool {
    match t {
        Some(x) => now_ms > x && now_ms - x > timeout_ms,
        None => false,
    }
}

/// `Node {id} does not exist`: the meta service's answer to a heartbeat from a
/// node it does not know.
pub open spec fn node_does_not_exist_spec(id: u64) -> Seq<char> {
    "Node "@ + decimal(id as nat) + " does not exist"@
}

pub fn node_does_not_exist_message(id: u64) -> (r: String)
    ensures
        r@ == node_does_not_exist_spec(id),
{
    let mut s = String::from_str("Node ");
    push_decimal(&mut s, id);
    s.append(" does not exist");
    assert(s@ =~= node_does_not_exist_spec(id));
    s
}

/// The meta service's answer to a heartbeat from an unknown node makes that
/// node register again.
pub proof fn lemma_unknown_node_reregisters(id: u64)
    ensures
        is_missing_node_error(node_does_not_exist_spec(id)),
{
    let s = node_does_not_exist_spec(id);
    let d = decimal(id as nat);
    reveal_strlit("Node ");
    reveal_strlit("Node");
    reveal_strlit(" does not exist");
    reveal_strlit("does not exist");
    assert(s.subrange(0, 4) =~= "Node"@);
    assert(occurs_at(s, "Node"@, 0));
    let k: int = (5 + d.len() + 1) as int;
    assert(s.subrange(k, k + 14) =~= "does not exist"@);
    assert(occurs_at(s, "does not exist"@, k));
}

/// Failures of the meta service's cluster requests.
#[derive(Clone, Copy, Debug, PartialEq, Eq, Structural)]
pub enum ClusterError {
    /// A heartbeat came from a node that is not registered.
    NodeDoesNotExist(u64),
}

impl ClusterError {
    /// The text sent back to the caller.
    pub fn message(&self) -> (r: String)
        ensures
            match *self {
                ClusterError::NodeDoesNotExist(id) => r@ == node_does_not_exist_spec(id),
            },
    {
        match self {
            ClusterError::NodeDoesNotExist(id) => node_does_not_exist_message(*id),
        }
    }
}

/// The last heartbeat of each node, as the meta service records them.
pub struct NodeLiveness {
    pub heartbeats: Vec<NodeHeartbeat>,
}

/// The last heartbeat time recorded for `id`, if any.
pub open spec fn last_heartbeat(s: Seq<NodeHeartbeat>, id: u64) -> Option<u64>
    decreases s.len(),
{
    if s.len() == 0 {
        None
    } else if s.last().node_id == id {
        Some(s.last().last_heartbeat_ms)
    } else {
        last_heartbeat(s.drop_last(), id)
    }
}

impl NodeLiveness {
    pub fn new() -> (r: NodeLiveness)
        ensures
            r.heartbeats@.len() == 0,
    {
        NodeLiveness { heartbeats: Vec::new() }
    }

    /// Records that `id` reported at `now_ms`.
    pub fn report_broker_heart(&mut self, id: u64, now_ms: u64)
        ensures
            last_heartbeat(final(self).heartbeats@, id) == Some(now_ms),
            forall|other: u64| other != id ==> #[trigger] last_heartbeat(final(self).heartbeats@, other) == last_heartbeat(old(self).heartbeats@, other),
    {
        let ghost before = self.heartbeats@;
        self.heartbeats.push(NodeHeartbeat { node_id: id, last_heartbeat_ms: now_ms });
        assert(self.heartbeats@.drop_last() =~= before);
    }

    /// The nodes whose latest heartbeat is older than `timeout_ms`, each once.
    pub fn expired(&self, now_ms: u64, timeout_ms: u64) -> (r: Vec<u64>)
        ensures
            forall|id: u64| #[trigger] r@.contains(id) <==> last_expired(last_heartbeat(self.heartbeats@, id), now_ms, timeout_ms),
    {
        let ghost hb = self.heartbeats@;
        let mut r: Vec<u64> = Vec::new();
        let mut seen: Vec<u64> = Vec::new();
        let mut i: usize = self.heartbeats.len();
        assert(hb.subrange(0, i as int) =~= hb);
        while i > 0
            invariant
                i <= hb.len(),
                hb == self.heartbeats@,
                forall|id: u64| !(#[trigger] seen@.contains(id)) ==> last_heartbeat(hb, id) == last_heartbeat(hb.subrange(0, i as int), id),
                forall|id: u64| #[trigger] r@.contains(id) <==> (seen@.contains(id) && last_expired(last_heartbeat(hb, id), now_ms, timeout_ms)),
                forall|id: u64| seen@.contains(id) ==> last_heartbeat(hb, id) is Some,
            decreases i,
        {
            let ghost pre = hb.subrange(0, i as int);
            assert(pre.drop_last() =~= hb.subrange(0, i - 1));
            assert(pre.last() == hb[i - 1]);
            let h = self.heartbeats[i - 1];
            let ghost s0 = seen@;
            let ghost r0 = r@;
            let mut already = false;
            let mut k: usize = 0;
            while k < seen.len()
                invariant
                    k <= seen@.len(),
                    already <==> exists|j: int| 0 <= j < k && seen@[j] == h.node_id,
                decreases seen@.len() - k,
            {
                if seen[k] == h.node_id {
                    already = true;
                }
                k += 1;
            }
            proof {
                if already {
                    let j = choose|j: int| 0 <= j < k && seen@[j] == h.node_id;
                    assert(seen@.contains(h.node_id));
                } else {
                    assert(!seen@.contains(h.node_id));
                }
            }
            if !already {
                seen.push(h.node_id);
                proof {
                    lemma_push_contains(s0, h.node_id);
                }
                if now_ms > h.last_heartbeat_ms && now_ms - h.last_heartbeat_ms > timeout_ms {
                    r.push(h.node_id);
                    proof {
                        lemma_push_contains(r0, h.node_id);
                    }
                }
            }
            i -= 1;
        }
        proof {
            assert forall|id: u64| #[trigger] r@.contains(id) <==> last_expired(last_heartbeat(hb, id), now_ms, timeout_ms) by {
                if !seen@.contains(id) {
                    assert(hb.subrange(0, 0).len() == 0);
                }
            }
        }
        r
    }

    /// Forgets every heartbeat of `id`.
    pub fn forget(&mut self, id: u64)
        ensures
            last_heartbeat(final(self).heartbeats@, id) is None,
            forall|other: u64| other != id ==> #[trigger] last_heartbeat(final(self).heartbeats@, other) == last_heartbeat(old(self).heartbeats@, other),
    {
        let ghost all = self.heartbeats@;
        let mut kept: Vec<NodeHeartbeat> = Vec::new();
        let mut i: usize = 0;
        assert(all.subrange(0, 0) =~= Seq::<NodeHeartbeat>::empty());
        while i < self.heartbeats.len()
            invariant
                i <= all.len(),
                all == self.heartbeats@,
                last_heartbeat(kept@, id) is None,
                forall|other: u64| other != id ==> #[trigger] last_heartbeat(kept@, other) == last_heartbeat(all.subrange(0, i as int), other),
            decreases all.len() - i,
        {
            let ghost pre = all.subrange(0, i + 1);
            assert(pre.drop_last() =~= all.subrange(0, i as int));
            assert(pre.last() == all[i as int]);
            let h = self.heartbeats[i];
            let ghost k0 = kept@;
            if h.node_id != id {
                kept.push(h);
                assert(kept@.drop_last() =~= k0);
            }
            proof {
                assert forall|other: u64| other != id implies #[trigger] last_heartbeat(kept@, other) == last_heartbeat(pre, other) by {
                    assert(last_heartbeat(k0, other) == last_heartbeat(all.subrange(0, i as int), other));
                }
            }
            i += 1;
        }
        assert(all.subrange(0, i as int) =~= all);
        self.heartbeats = kept;
    }

    /// Handles a heartbeat: a node the cache knows is recorded; any other gets
    /// the `does not exist` error.
    pub fn heartbeat_by_req(&mut self, cache: &BrokerCache, id: u64, now_ms: u64) -> (r: Result<(), ClusterError>)
        ensures
            node_of(cache.nodes@, id) is Some ==> r is Ok && last_heartbeat(final(self).heartbeats@, id) == Some(now_ms),
            node_of(cache.nodes@, id) is None ==> r == Err::<(), ClusterError>(ClusterError::NodeDoesNotExist(id))
                && final(self).heartbeats@ == old(self).heartbeats@,
    {
        match cache.get_node(id) {
            None => Err(ClusterError::NodeDoesNotExist(id)),
            Some(_) => {
                self.report_broker_heart(id, now_ms);
                Ok(())
            },
        }
    }
}

/// What the meta service does for a node registration or removal: one write to
/// `metadata_0` tagged `data_type`, and one notification to every broker.
#[derive(Debug)]
pub struct NodeChange {
    pub plan: WritePlan,
    pub data_type: &'static str,
    pub notification: NodeCallData,
}

/// What planning a metadata write does to the registry: nothing when the group
/// is stopped, else one more `raft_write_requests` on `metadata_0` and no other
/// change.
pub open spec fn metadata_write_counted(stopped: bool, before: MetricsRegistry, after: MetricsRegistry) -> bool {
    let name = shard_name_spec("metadata"@, 0);
    if stopped {
        after == before
    } else {
        &&& after.get("raft_write_requests"@, seq![name]) == Some(bumped(before.get("raft_write_requests"@, seq![name])))
        &&& after.same_except(&before, "raft_write_requests"@, seq![name])
    }
}

/// Registers a node: records its first heartbeat, plans the `ClusterAddNode`
/// write on the metadata shard, and builds the `UpdateCache{Create, Node}`
/// notification carrying the encoded node. Fails only on a stopped group.
pub fn register_node_by_req(
    liveness: &mut NodeLiveness,
    raft: &MultiRaftManager,
    reg: &mut MetricsRegistry,
    node_id: u64,
    encoded_node: Vec<u8>,
    now_ms: u64,
    configured_timeout_sec: u64,
) -> (r: Result<NodeChange, MetaServiceError>)
    requires
        raft.wf(),
    ensures
        last_heartbeat(final(liveness).heartbeats@, node_id) == Some(now_ms),
        raft.metadata.stopped() <==> r is Err,
        metadata_write_counted(raft.metadata.stopped(), *old(reg), *final(reg)),
        r matches Ok(c) ==> c.plan.shard_name@ == shard_name_spec("metadata"@, 0) && c.data_type@ == "ClusterAddNode"@
            && c.notification == NodeCallData::UpdateCache(
            UpdateCacheData { action_type: CacheActionType::Create, resource_type: CacheResourceType::Node, data: encoded_node },
        ),
{
    liveness.report_broker_heart(node_id, now_ms);
    match raft.write_metadata(reg, configured_timeout_sec) {
        Ok(plan) => Ok(NodeChange {
            plan,
            data_type: "ClusterAddNode",
            notification: update_cache_notification(CacheActionType::Create, CacheResourceType::Node, encoded_node),
        }),
        Err(e) => Err(e),
    }
}

/// Removes a node the cache knows: plans the `ClusterDeleteNode` write on the
/// metadata shard and builds the `UpdateCache{Delete, Node}` notification. An
/// unknown node needs nothing (`Ok(None)`).
pub fn un_register_node_by_req(
    cache: &BrokerCache,
    raft: &MultiRaftManager,
    reg: &mut MetricsRegistry,
    node_id: u64,
    encoded_node: Vec<u8>,
    configured_timeout_sec: u64,
) -> (r: Result<Option<NodeChange>, MetaServiceError>)
    requires
        raft.wf(),
    ensures
        node_of(cache.nodes@, node_id) is None ==> r == Ok::<Option<NodeChange>, MetaServiceError>(None) && *final(reg) == *old(reg),
        node_of(cache.nodes@, node_id) is Some ==> (raft.metadata.stopped() <==> r is Err),
        node_of(cache.nodes@, node_id) is Some && !raft.metadata.stopped() ==> r matches Ok(Some(_)),
        node_of(cache.nodes@, node_id) is Some ==> metadata_write_counted(raft.metadata.stopped(), *old(reg), *final(reg)),
        r matches Ok(Some(c)) ==> node_of(cache.nodes@, node_id) is Some && c.plan.shard_name@ == shard_name_spec("metadata"@, 0)
            && c.data_type@ == "ClusterDeleteNode"@ && c.notification == NodeCallData::UpdateCache(
            UpdateCacheData { action_type: CacheActionType::Delete, resource_type: CacheResourceType::Node, data: encoded_node },
        ),
{
    match cache.get_node(node_id) {
        None => Ok(None),
        Some(_) => match raft.write_metadata(reg, configured_timeout_sec) {
            Ok(plan) => Ok(Some(NodeChange {
                plan,
                data_type: "ClusterDeleteNode",
                notification: update_cache_notification(CacheActionType::Delete, CacheResourceType::Node, encoded_node),
            })),
            Err(e) => Err(e),
        },
    }
}

/// The state of one Raft shard as the meta service reports it.
#[derive(Debug)]
pub struct ShardStatus {
    pub shard_name: String,
    /// `running_state` is the `Ok` variant.
    pub running_ok: bool,
    pub current_leader: u64,
}

impl ShardStatus {
    pub open spec fn ready(&self) -> bool {
        self.running_ok && self.current_leader != 0
    }

    /// Running without error and with an elected leader.
    pub fn is_ready(&self) -> (r: bool)
        ensures
            r == self.ready(),
    {
        self.running_ok && self.current_leader != 0
    }
}

/// The number of ready shards in `s`.
pub open spec fn ready_count(s: Seq<ShardStatus>) -> nat
    decreases s.len(),
{
    if s.len() == 0 {
        0
    } else {
        ready_count(s.drop_last()) + if s.last().ready() { 1nat } else { 0nat }
    }
}

/// The names of the shards of `s` that are not ready, in order.
pub open spec fn not_ready_names(s: Seq<ShardStatus>) -> Seq<Seq<char>>
    decreases s.len(),
{
    if s.len() == 0 {
        Seq::empty()
    } else if s.last().ready() {
        not_ready_names(s.drop_last())
    } else {
        not_ready_names(s.drop_last()).push(s.last().shard_name@)
    }
}

/// What one readiness poll found.
#[derive(Debug)]
pub enum ClusterReadiness {
    /// No shard reported yet.
    Empty,
    /// Every shard is ready; each shard name with its leader.
    Ready(Vec<(String, u64)>),
    /// Some shards are not ready.
    NotReady { ready: usize, total: usize, not_ready: Vec<String> },
}

/// The cluster is ready when it reports at least one shard and every shard is
/// ready.
pub fn cluster_readiness(statuses: &Vec<ShardStatus>) -> (r: ClusterReadiness)
    ensures
        statuses@.len() == 0 <==> r is Empty,
        r is Ready <==> (statuses@.len() > 0 && forall|i: int| 0 <= i < statuses@.len() ==> (#[trigger] statuses@[i]).ready()),
        match r {
            ClusterReadiness::Ready(pairs) => pairs@.len() == statuses@.len() && forall|i: int| 0 <= i < pairs@.len()
                ==> (#[trigger] pairs@[i]).0@ == statuses@[i].shard_name@ && pairs@[i].1 == statuses@[i].current_leader,
            ClusterReadiness::NotReady { ready, total, not_ready } => total == statuses@.len() && ready == ready_count(statuses@)
                && not_ready@.map_values(|s: String| s@) == not_ready_names(statuses@),
            ClusterReadiness::Empty => true,
        },
{
    if statuses.len() == 0 {
        return ClusterReadiness::Empty;
    }
    let mut ready: usize = 0;
    let mut not_ready: Vec<String> = Vec::new();
    let mut pairs: Vec<(String, u64)> = Vec::new();
    let mut i: usize = 0;
    while i < statuses.len()
        invariant
            i <= statuses@.len(),
            ready == ready_count(statuses@.subrange(0, i as int)),
            ready <= i,
            not_ready@.map_values(|s: String| s@) == not_ready_names(statuses@.subrange(0, i as int)),
            (not_ready@.len() == 0) <==> forall|k: int| 0 <= k < i ==> (#[trigger] statuses@[k]).ready(),
            pairs@.len() == i,
            forall|k: int| 0 <= k < i ==> (#[trigger] pairs@[k]).0@ == statuses@[k].shard_name@ && pairs@[k].1 == statuses@[k].current_leader,
        decreases statuses@.len() - i,
    {
        let ghost pre = statuses@.subrange(0, i + 1);
        assert(pre.drop_last() =~= statuses@.subrange(0, i as int));
        assert(pre.last() == statuses@[i as int]);
        let ghost nr0 = not_ready@;
        let s = &statuses[i];
        if s.is_ready() {
            ready += 1;
        } else {
            not_ready.push(s.shard_name.clone());
            assert(not_ready@.map_values(|s: String| s@) =~= nr0.map_values(|s: String| s@).push(statuses@[i as int].shard_name@));
        }
        pairs.push((s.shard_name.clone(), s.current_leader));
        i += 1;
        proof {
            if not_ready@.len() == 0 {
                assert forall|k: int| 0 <= k < i implies (#[trigger] statuses@[k]).ready() by {
                    if k < i - 1 {
                    } else {
                        assert(k == i - 1);
                    }
                }
            }
        }
    }
    assert(statuses@.subrange(0, i as int) =~= statuses@);
    if not_ready.len() == 0 {
        ClusterReadiness::Ready(pairs)
    } else {
        ClusterReadiness::NotReady { ready, total: statuses.len(), not_ready }
    }
}

} // verus!
