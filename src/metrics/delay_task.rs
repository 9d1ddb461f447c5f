use vstd::prelude::*;
use crate::metrics::{bumped, labels0, labels1, MetricsRegistry};

verus! {

/// Series label of the delay-task creation counter (no label values).
#[derive(Debug, Default, PartialEq, Eq, Structural)]
pub struct DelayTaskLabel {}

/// Series label of the per-task-type delay-task metrics.
#[derive(Debug)]
pub struct DelayTaskTypeLabel {
    pub task_type: String,
}

impl PartialEq for DelayTaskTypeLabel {
    fn eq(&self, o: &DelayTaskTypeLabel) -> (r: bool) {
        self.task_type == o.task_type
    }
}

impl vstd::std_specs::cmp::PartialEqSpecImpl for DelayTaskTypeLabel {
    open spec fn obeys_eq_spec() -> bool {
        true
    }

    open spec fn eq_spec(&self, o: &DelayTaskTypeLabel) -> bool {
        self.task_type@ == o.task_type@
    }
}

impl Eq for DelayTaskTypeLabel {}

pub fn record_delay_task_created(reg: &mut MetricsRegistry)
    ensures
        final(reg).get("delay_task_created"@, Seq::empty()) == Some(bumped(old(reg).get("delay_task_created"@, Seq::empty()))),
        final(reg).same_except(old(reg), "delay_task_created"@, Seq::empty()),
{
    reg.inc("delay_task_created", &labels0());
}

pub fn record_delay_task_executed(reg: &mut MetricsRegistry, task_type: &str)
    ensures
        final(reg).get("delay_task_executed"@, seq![task_type@]) == Some(bumped(old(reg).get("delay_task_executed"@, seq![task_type@]))),
        final(reg).same_except(old(reg), "delay_task_executed"@, seq![task_type@]),
{
    reg.inc("delay_task_executed", &labels1(task_type));
}

pub fn record_delay_task_execute_failed(reg: &mut MetricsRegistry, task_type: &str)
    ensures
        final(reg).get("delay_task_execute_failed"@, seq![task_type@]) == Some(bumped(old(reg).get("delay_task_execute_failed"@, seq![task_type@]))),
        final(reg).same_except(old(reg), "delay_task_execute_failed"@, seq![task_type@]),
{
    reg.inc("delay_task_execute_failed", &labels1(task_type));
}

/// Registers the creation counter so that it is exported before the first task.
pub fn init(reg: &mut MetricsRegistry)
    ensures
        final(reg).get("delay_task_created"@, Seq::empty()) is Some,
        final(reg).same_except(old(reg), "delay_task_created"@, Seq::empty()),
{
    reg.touch("delay_task_created", &labels0());
}

} // verus!
