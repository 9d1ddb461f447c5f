use vstd::prelude::*;
use crate::metrics::{labels0, labels1, MetricsRegistry};

verus! {

/// Series label of the per-runtime scheduler metrics.
#[derive(Debug)]
pub struct RuntimeLabel {
    pub runtime: String,
}

impl PartialEq for RuntimeLabel {
    fn eq(&self, o: &RuntimeLabel) -> (r: bool) {
        self.runtime == o.runtime
    }
}

impl vstd::std_specs::cmp::PartialEqSpecImpl for RuntimeLabel {
    open spec fn obeys_eq_spec() -> bool {
        true
    }

    open spec fn eq_spec(&self, o: &RuntimeLabel) -> bool {
        self.runtime@ == o.runtime@
    }
}

impl Eq for RuntimeLabel {}

/// The value of an unlabelled gauge, zero before it is first set.
pub open spec fn gauge_or_zero(reg: MetricsRegistry, name: Seq<char>) -> i64 {
    match reg.get(name, Seq::empty()) {
        Some(v) => v,
        None => 0,
    }
}

fn set_system(reg: &mut MetricsRegistry, name: &str, value: i64)
    ensures
        final(reg).get(name@, Seq::empty()) == Some(value),
        final(reg).same_except(old(reg), name@, Seq::empty()),
{
    reg.set(name, &labels0(), value);
}

fn get_system(reg: &MetricsRegistry, name: &str) -> (r: i64)
    ensures
        r == gauge_or_zero(*reg, name@),
{
    match reg.value(name, &labels0()) {
        Some(v) => v,
        None => 0,
    }
}

pub fn record_system_process_cpu_set(reg: &mut MetricsRegistry, value: i64)
    ensures
        final(reg).get("system_process_cpu_usage"@, Seq::empty()) == Some(value),
        final(reg).same_except(old(reg), "system_process_cpu_usage"@, Seq::empty()),
{
    set_system(reg, "system_process_cpu_usage", value);
}

pub fn record_system_process_cpu_get(reg: &MetricsRegistry) -> (r: i64)
    ensures
        r == gauge_or_zero(*reg, "system_process_cpu_usage"@),
{
    get_system(reg, "system_process_cpu_usage")
}

pub fn record_system_process_memory_set(reg: &mut MetricsRegistry, value: i64)
    ensures
        final(reg).get("system_process_memory_usage"@, Seq::empty()) == Some(value),
        final(reg).same_except(old(reg), "system_process_memory_usage"@, Seq::empty()),
{
    set_system(reg, "system_process_memory_usage", value);
}

pub fn record_system_process_memory_get(reg: &MetricsRegistry) -> (r: i64)
    ensures
        r == gauge_or_zero(*reg, "system_process_memory_usage"@),
{
    get_system(reg, "system_process_memory_usage")
}

pub fn record_system_cpu_set(reg: &mut MetricsRegistry, value: i64)
    ensures
        final(reg).get("system_cpu_usage"@, Seq::empty()) == Some(value),
        final(reg).same_except(old(reg), "system_cpu_usage"@, Seq::empty()),
{
    set_system(reg, "system_cpu_usage", value);
}

pub fn record_system_cpu_get(reg: &MetricsRegistry) -> (r: i64)
    ensures
        r == gauge_or_zero(*reg, "system_cpu_usage"@),
{
    get_system(reg, "system_cpu_usage")
}

pub fn record_system_memory_set(reg: &mut MetricsRegistry, value: i64)
    ensures
        final(reg).get("system_memory_usage"@, Seq::empty()) == Some(value),
        final(reg).same_except(old(reg), "system_memory_usage"@, Seq::empty()),
{
    set_system(reg, "system_memory_usage", value);
}

pub fn record_system_memory_get(reg: &MetricsRegistry) -> (r: i64)
    ensures
        r == gauge_or_zero(*reg, "system_memory_usage"@),
{
    get_system(reg, "system_memory_usage")
}

pub fn record_runtime_busy_ratio_set(reg: &mut MetricsRegistry, runtime: &str, value: i64)
    ensures
        final(reg).get("tokio_runtime_busy_ratio"@, seq![runtime@]) == Some(value),
        final(reg).same_except(old(reg), "tokio_runtime_busy_ratio"@, seq![runtime@]),
{
    reg.set("tokio_runtime_busy_ratio", &labels1(runtime), value);
}

pub fn record_runtime_queue_depth_set(reg: &mut MetricsRegistry, runtime: &str, value: i64)
    ensures
        final(reg).get("tokio_runtime_queue_depth"@, seq![runtime@]) == Some(value),
        final(reg).same_except(old(reg), "tokio_runtime_queue_depth"@, seq![runtime@]),
{
    reg.set("tokio_runtime_queue_depth", &labels1(runtime), value);
}

pub fn record_runtime_alive_tasks_set(reg: &mut MetricsRegistry, runtime: &str, value: i64)
    ensures
        final(reg).get("tokio_runtime_alive_tasks"@, seq![runtime@]) == Some(value),
        final(reg).same_except(old(reg), "tokio_runtime_alive_tasks"@, seq![runtime@]),
{
    reg.set("tokio_runtime_alive_tasks", &labels1(runtime), value);
}

/// The scheduler gauges of runtime `rt` are all zero.
pub open spec fn runtime_zeroed(reg: MetricsRegistry, rt: Seq<char>) -> bool {
    &&& reg.get("tokio_runtime_busy_ratio"@, seq![rt]) == Some(0i64)
    &&& reg.get("tokio_runtime_queue_depth"@, seq![rt]) == Some(0i64)
    &&& reg.get("tokio_runtime_alive_tasks"@, seq![rt]) == Some(0i64)
}

/// `n` names one of the scheduler gauges of a runtime.
pub open spec fn is_runtime_gauge(n: Seq<char>) -> bool {
    n == "tokio_runtime_busy_ratio"@ || n == "tokio_runtime_queue_depth"@ || n == "tokio_runtime_alive_tasks"@
}

/// `n` names one of the unlabelled system gauges.
pub open spec fn is_system_gauge(n: Seq<char>) -> bool {
    n == "system_process_cpu_usage"@ || n == "system_process_memory_usage"@ || n == "system_cpu_usage"@
        || n == "system_memory_usage"@
}

/// `l` is the label of one of the `server`, `meta` and `broker` runtimes.
pub open spec fn is_runtime_label(l: Seq<Seq<char>>) -> bool {
    l == seq!["server"@] || l == seq!["meta"@] || l == seq!["broker"@]
}

fn init_runtime(reg: &mut MetricsRegistry, rt: &str)
    ensures
        runtime_zeroed(*final(reg), rt@),
        forall|n: Seq<char>, l: Seq<Seq<char>>| !(l == seq![rt@] && is_runtime_gauge(n)) ==> #[trigger] final(reg).get(n, l) == old(reg).get(n, l),
{
    proof {
        reveal_strlit("tokio_runtime_busy_ratio");
        reveal_strlit("tokio_runtime_queue_depth");
        reveal_strlit("tokio_runtime_alive_tasks");
    }
    assert("tokio_runtime_busy_ratio"@.len() == 24 && "tokio_runtime_queue_depth"@.len() == 25);
    assert("tokio_runtime_queue_depth"@[14] != "tokio_runtime_alive_tasks"@[14]);
    let l = labels1(rt);
    reg.set("tokio_runtime_busy_ratio", &l, 0);
    reg.set("tokio_runtime_queue_depth", &l, 0);
    reg.set("tokio_runtime_alive_tasks", &l, 0);
}

/// The system gauges are all zero.
pub open spec fn system_zeroed(reg: MetricsRegistry) -> bool {
    &&& reg.get("system_process_cpu_usage"@, Seq::empty()) == Some(0i64)
    &&& reg.get("system_process_memory_usage"@, Seq::empty()) == Some(0i64)
    &&& reg.get("system_cpu_usage"@, Seq::empty()) == Some(0i64)
    &&& reg.get("system_memory_usage"@, Seq::empty()) == Some(0i64)
}

/// Registers the system gauges and the scheduler gauges of the `server`, `meta`
/// and `broker` runtimes at zero. Nothing else changes, so a second call leaves
/// the registry as the first left it.
pub fn init(reg: &mut MetricsRegistry)
    ensures
        system_zeroed(*final(reg)),
        runtime_zeroed(*final(reg), "server"@),
        runtime_zeroed(*final(reg), "meta"@),
        runtime_zeroed(*final(reg), "broker"@),
        forall|n: Seq<char>, l: Seq<Seq<char>>|
            !((l == Seq::<Seq<char>>::empty() && is_system_gauge(n)) || (is_runtime_label(l) && is_runtime_gauge(n)))
            ==> #[trigger] final(reg).get(n, l) == old(reg).get(n, l),
{
    proof {
        reveal_strlit("system_process_cpu_usage");
        reveal_strlit("system_process_memory_usage");
        reveal_strlit("system_cpu_usage");
        reveal_strlit("system_memory_usage");
        reveal_strlit("server");
        reveal_strlit("meta");
        reveal_strlit("broker");
    }
    assert("system_process_cpu_usage"@.len() == 24 && "system_process_memory_usage"@.len() == 27);
    assert("system_cpu_usage"@.len() == 16 && "system_memory_usage"@.len() == 19);
    assert("server"@[0] != "broker"@[0] && "meta"@.len() == 4 && "server"@.len() == 6);
    set_system(reg, "system_process_cpu_usage", 0);
    set_system(reg, "system_process_memory_usage", 0);
    set_system(reg, "system_cpu_usage", 0);
    set_system(reg, "system_memory_usage", 0);
    assert(system_zeroed(*reg));
    assert(Seq::<Seq<char>>::empty() != seq!["server"@] && Seq::<Seq<char>>::empty() != seq!["meta"@]
        && Seq::<Seq<char>>::empty() != seq!["broker"@]) by {
        assert(Seq::<Seq<char>>::empty().len() == 0);
    }
    init_runtime(reg, "server");
    init_runtime(reg, "meta");
    init_runtime(reg, "broker");
}

} // verus!
