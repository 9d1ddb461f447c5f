use vstd::prelude::*;
use crate::metrics::{bumped, labels1, labels2, MetricsRegistry};

verus! {

/// Series label of the per-group Raft metrics.
#[derive(Debug)]
pub struct RaftLabel {
    pub machine: String,
}

impl PartialEq for RaftLabel {
    fn eq(&self, o: &RaftLabel) -> (r: bool) {
        self.machine == o.machine
    }
}

impl vstd::std_specs::cmp::PartialEqSpecImpl for RaftLabel {
    open spec fn obeys_eq_spec() -> bool {
        true
    }

    open spec fn eq_spec(&self, o: &RaftLabel) -> bool {
        self.machine@ == o.machine@
    }
}

impl Eq for RaftLabel {}

/// Series label of the per-group, per-call Raft RPC metrics.
#[derive(Debug)]
pub struct RaftRpcLabel {
    pub machine: String,
    pub rpc_type: String,
}

impl PartialEq for RaftRpcLabel {
    fn eq(&self, o: &RaftRpcLabel) -> (r: bool) {
        self.machine == o.machine && self.rpc_type == o.rpc_type
    }
}

impl vstd::std_specs::cmp::PartialEqSpecImpl for RaftRpcLabel {
    open spec fn obeys_eq_spec() -> bool {
        true
    }

    open spec fn eq_spec(&self, o: &RaftRpcLabel) -> bool {
        self.machine@ == o.machine@ && self.rpc_type@ == o.rpc_type@
    }
}

impl Eq for RaftRpcLabel {}

pub fn record_write_request(reg: &mut MetricsRegistry, machine: &str)
    ensures
        final(reg).get("raft_write_requests"@, seq![machine@]) == Some(bumped(old(reg).get("raft_write_requests"@, seq![machine@]))),
        final(reg).same_except(old(reg), "raft_write_requests"@, seq![machine@]),
{
    reg.inc("raft_write_requests", &labels1(machine));
}

pub fn record_write_success(reg: &mut MetricsRegistry, machine: &str)
    ensures
        final(reg).get("raft_write_success"@, seq![machine@]) == Some(bumped(old(reg).get("raft_write_success"@, seq![machine@]))),
        final(reg).same_except(old(reg), "raft_write_success"@, seq![machine@]),
{
    reg.inc("raft_write_success", &labels1(machine));
}

pub fn record_write_failure(reg: &mut MetricsRegistry, machine: &str)
    ensures
        final(reg).get("raft_write_failures"@, seq![machine@]) == Some(bumped(old(reg).get("raft_write_failures"@, seq![machine@]))),
        final(reg).same_except(old(reg), "raft_write_failures"@, seq![machine@]),
{
    reg.inc("raft_write_failures", &labels1(machine));
}

pub fn record_rpc_request(reg: &mut MetricsRegistry, machine: &str, rpc_type: &str)
    ensures
        final(reg).get("raft_rpc_requests"@, seq![machine@, rpc_type@]) == Some(bumped(old(reg).get("raft_rpc_requests"@, seq![machine@, rpc_type@]))),
        final(reg).same_except(old(reg), "raft_rpc_requests"@, seq![machine@, rpc_type@]),
{
    reg.inc("raft_rpc_requests", &labels2(machine, rpc_type));
}

pub fn record_rpc_success(reg: &mut MetricsRegistry, machine: &str, rpc_type: &str)
    ensures
        final(reg).get("raft_rpc_success"@, seq![machine@, rpc_type@]) == Some(bumped(old(reg).get("raft_rpc_success"@, seq![machine@, rpc_type@]))),
        final(reg).same_except(old(reg), "raft_rpc_success"@, seq![machine@, rpc_type@]),
{
    reg.inc("raft_rpc_success", &labels2(machine, rpc_type));
}

pub fn record_rpc_failure(reg: &mut MetricsRegistry, machine: &str, rpc_type: &str)
    ensures
        final(reg).get("raft_rpc_failures"@, seq![machine@, rpc_type@]) == Some(bumped(old(reg).get("raft_rpc_failures"@, seq![machine@, rpc_type@]))),
        final(reg).same_except(old(reg), "raft_rpc_failures"@, seq![machine@, rpc_type@]),
{
    reg.inc("raft_rpc_failures", &labels2(machine, rpc_type));
}

/// `n` names one of the gauges that an apply-lag sample sets.
pub open spec fn is_apply_gauge(n: Seq<char>) -> bool {
    n == "raft_apply_lag"@ || n == "raft_last_log_index"@ || n == "raft_last_applied"@
}

/// `n` names one of the series that `init` registers for each group.
pub open spec fn is_init_series(n: Seq<char>) -> bool {
    is_apply_gauge(n) || n == "raft_write_requests"@ || n == "raft_write_success"@ || n == "raft_write_failures"@
}

/// A counter after it was touched: its value kept, or zero if it had none.
pub open spec fn touched(v: Option<i64>) -> Option<i64> {
    match v {
        Some(x) => Some(x),
        None => Some(0i64),
    }
}

proof fn lemma_series_names_differ()
    ensures
        "raft_apply_lag"@ != "raft_last_log_index"@,
        "raft_apply_lag"@ != "raft_last_applied"@,
        "raft_last_log_index"@ != "raft_last_applied"@,
        "raft_write_requests"@ != "raft_apply_lag"@,
        "raft_write_requests"@ != "raft_last_log_index"@,
        "raft_write_requests"@ != "raft_last_applied"@,
        "raft_write_success"@ != "raft_apply_lag"@,
        "raft_write_success"@ != "raft_last_log_index"@,
        "raft_write_success"@ != "raft_last_applied"@,
        "raft_write_failures"@ != "raft_apply_lag"@,
        "raft_write_failures"@ != "raft_last_log_index"@,
        "raft_write_failures"@ != "raft_last_applied"@,
        "raft_write_requests"@ != "raft_write_success"@,
        "raft_write_requests"@ != "raft_write_failures"@,
        "raft_write_success"@ != "raft_write_failures"@,
{
    reveal_strlit("raft_apply_lag");
    reveal_strlit("raft_last_log_index");
    reveal_strlit("raft_last_applied");
    reveal_strlit("raft_write_requests");
    reveal_strlit("raft_write_success");
    reveal_strlit("raft_write_failures");
    assert("raft_apply_lag"@.len() == 14 && "raft_last_applied"@.len() == 17 && "raft_write_success"@.len() == 18);
    assert("raft_last_log_index"@.len() == 19 && "raft_write_requests"@.len() == 19 && "raft_write_failures"@.len() == 19);
    assert("raft_last_log_index"@[5] != "raft_write_requests"@[5]);
    assert("raft_last_log_index"@[5] != "raft_write_failures"@[5]);
    assert("raft_write_requests"@[11] != "raft_write_failures"@[11]);
}

/// Publishes the apply lag `last_log - last_applied` (zero when the state
/// machine is ahead) with both indexes.
pub fn record_raft_apply_lag(reg: &mut MetricsRegistry, machine: &str, last_log: u64, last_applied: u64)
    ensures
        final(reg).get("raft_apply_lag"@, seq![machine@]) == Some(
            (if last_log > last_applied { (last_log - last_applied) as u64 } else { 0u64 }) as i64,
        ),
        final(reg).get("raft_last_log_index"@, seq![machine@]) == Some(last_log as i64),
        final(reg).get("raft_last_applied"@, seq![machine@]) == Some(last_applied as i64),
        forall|n: Seq<char>, l: Seq<Seq<char>>| !(l == seq![machine@] && is_apply_gauge(n)) ==> #[trigger] final(reg).get(n, l) == old(reg).get(n, l),
{
    proof {
        reveal_strlit("raft_apply_lag");
        reveal_strlit("raft_last_log_index");
        reveal_strlit("raft_last_applied");
    }
    let lag = if last_log > last_applied { last_log - last_applied } else { 0 };
    let l = labels1(machine);
    assert("raft_apply_lag"@.len() == 14 && "raft_last_log_index"@.len() == 19 && "raft_last_applied"@.len() == 17);
    reg.set("raft_apply_lag", &l, lag as i64);
    reg.set("raft_last_log_index", &l, last_log as i64);
    reg.set("raft_last_applied", &l, last_applied as i64);
}

/// The series of group `m` after `init`: the gauges at zero, the counters
/// touched (kept, or zero if new).
pub open spec fn machine_ready(before: MetricsRegistry, after: MetricsRegistry, m: Seq<char>) -> bool {
    &&& after.get("raft_apply_lag"@, seq![m]) == Some(0i64)
    &&& after.get("raft_last_log_index"@, seq![m]) == Some(0i64)
    &&& after.get("raft_last_applied"@, seq![m]) == Some(0i64)
    &&& after.get("raft_write_requests"@, seq![m]) == touched(before.get("raft_write_requests"@, seq![m]))
    &&& after.get("raft_write_success"@, seq![m]) == touched(before.get("raft_write_success"@, seq![m]))
    &&& after.get("raft_write_failures"@, seq![m]) == touched(before.get("raft_write_failures"@, seq![m]))
}

fn init_machine(reg: &mut MetricsRegistry, m: &str)
    ensures
        machine_ready(*old(reg), *final(reg), m@),
        forall|n: Seq<char>, l: Seq<Seq<char>>| !(l == seq![m@] && is_init_series(n)) ==> #[trigger] final(reg).get(n, l) == old(reg).get(n, l),
{
    proof {
        lemma_series_names_differ();
    }
    let l = labels1(m);
    reg.set("raft_apply_lag", &l, 0);
    reg.set("raft_last_log_index", &l, 0);
    reg.set("raft_last_applied", &l, 0);
    reg.touch("raft_write_requests", &l);
    reg.touch("raft_write_success", &l);
    reg.touch("raft_write_failures", &l);
}

/// `l` is the label of one of the three groups.
pub open spec fn is_group_label(l: Seq<Seq<char>>) -> bool {
    l == seq!["mqtt"@] || l == seq!["offset"@] || l == seq!["metadata"@]
}

/// Registers the gauges of the three groups at zero and touches their write
/// counters, so that all are exported before the first write. Nothing else
/// changes, so a second call leaves the registry as the first left it.
pub fn init(reg: &mut MetricsRegistry)
    ensures
        machine_ready(*old(reg), *final(reg), "mqtt"@),
        machine_ready(*old(reg), *final(reg), "offset"@),
        machine_ready(*old(reg), *final(reg), "metadata"@),
        forall|n: Seq<char>, l: Seq<Seq<char>>| !(is_group_label(l) && is_init_series(n)) ==> #[trigger] final(reg).get(n, l) == old(reg).get(n, l),
{
    proof {
        reveal_strlit("mqtt");
        reveal_strlit("offset");
        reveal_strlit("metadata");
        assert("mqtt"@.len() == 4 && "offset"@.len() == 6 && "metadata"@.len() == 8);
        assert(seq!["mqtt"@] != seq!["offset"@] && seq!["mqtt"@] != seq!["metadata"@] && seq!["offset"@] != seq!["metadata"@]) by {
            assert(seq!["mqtt"@][0] != seq!["offset"@][0]);
            assert(seq!["mqtt"@][0] != seq!["metadata"@][0]);
            assert(seq!["offset"@][0] != seq!["metadata"@][0]);
        }
    }
    init_machine(reg, "mqtt");
    init_machine(reg, "offset");
    init_machine(reg, "metadata");
}

} // verus!
