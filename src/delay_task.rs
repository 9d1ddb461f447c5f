use vstd::prelude::*;
use crate::node_call::{LastWillMessageItem, NodeCallData};
use crate::text::text_eq;
use crate::metrics::delay_task::record_delay_task_created;
use crate::metrics::{bumped, MetricsRegistry};

verus! {

/// The internal topic that holds a snapshot of every persistent task.
pub const DELAY_TASK_INDEX_TOPIC: &'static str = "$delay-task-index";

/// Tries to read one page of the index topic during recovery.
pub const MAX_READ_RETRY: u32 = 3;

/// Records read from the index topic per page during recovery.
pub const RECOVER_PAGE_SIZE: u64 = 100;

/// Recovery reports progress every this many recovered tasks.
pub const PROGRESS_LOG_INTERVAL: u64 = 1000;

/// What a delay task does when it fires.
#[derive(Debug)]
pub enum DelayTaskData {
    /// Expire the session of this client.
    MQTTSessionExpire(String),
    /// Publish the last-will message of this client.
    MQTTLastwillExpire(String),
}

impl DelayTaskData {
    pub fn task_type_name(&self) -> (r: &'static str)
        ensures
            r@ == match *self {
                DelayTaskData::MQTTSessionExpire(_) => "MQTTSessionExpire"@,
                DelayTaskData::MQTTLastwillExpire(_) => "MQTTLastwillExpire"@,
            },
    {
        match self {
            DelayTaskData::MQTTSessionExpire(_) => "MQTTSessionExpire",
            DelayTaskData::MQTTLastwillExpire(_) => "MQTTLastwillExpire",
        }
    }

    pub fn duplicate(&self) -> (r: DelayTaskData)
        ensures
            r == *self,
    {
        match self {
            DelayTaskData::MQTTSessionExpire(c) => DelayTaskData::MQTTSessionExpire(c.clone()),
            DelayTaskData::MQTTLastwillExpire(c) => DelayTaskData::MQTTLastwillExpire(c.clone()),
        }
    }
}

/// A scheduled action: it fires at `delay_target_time` (seconds). A persistent
/// task survives a restart through the index topic.
#[derive(Debug)]
pub struct DelayTask {
    pub task_id: String,
    pub data: DelayTaskData,
    pub delay_target_time: u64,
    pub create_time: u64,
    pub persistent: bool,
}

impl DelayTask {
    pub fn build_persistent(task_id: String, data: DelayTaskData, delay_target_time: u64, now: u64) -> (r: DelayTask)
        ensures
            r == (DelayTask { task_id, data, delay_target_time, create_time: now, persistent: true }),
    {
        DelayTask { task_id, data, delay_target_time, create_time: now, persistent: true }
    }

    pub fn build_ephemeral(task_id: String, data: DelayTaskData, delay_target_time: u64, now: u64) -> (r: DelayTask)
        ensures
            r == (DelayTask { task_id, data, delay_target_time, create_time: now, persistent: false }),
    {
        DelayTask { task_id, data, delay_target_time, create_time: now, persistent: false }
    }

    pub fn task_type_name(&self) -> (r: &'static str)
        ensures
            r@ == match self.data {
                DelayTaskData::MQTTSessionExpire(_) => "MQTTSessionExpire"@,
                DelayTaskData::MQTTLastwillExpire(_) => "MQTTLastwillExpire"@,
            },
    {
        self.data.task_type_name()
    }

    pub fn duplicate(&self) -> (r: DelayTask)
        ensures
            r == *self,
    {
        DelayTask {
            task_id: self.task_id.clone(),
            data: self.data.duplicate(),
            delay_target_time: self.delay_target_time,
            create_time: self.create_time,
            persistent: self.persistent,
        }
    }
}

/// A task waiting in one of the queues.
#[derive(Debug)]
pub struct QueuedTask {
    pub task: DelayTask,
    pub shard: u32,
}

/// `s` without the tasks whose id is `id`.
pub open spec fn without_task(s: Seq<DelayTask>, id: Seq<char>) -> Seq<DelayTask>
    decreases s.len(),
{
    if s.len() == 0 {
        Seq::empty()
    } else if s.last().task_id@ == id {
        without_task(s.drop_last(), id)
    } else {
        without_task(s.drop_last(), id).push(s.last())
    }
}

/// `s` without the queued tasks whose id is `id`.
pub open spec fn without_queued(s: Seq<QueuedTask>, id: Seq<char>) -> Seq<QueuedTask>
    decreases s.len(),
{
    if s.len() == 0 {
        Seq::empty()
    } else if s.last().task.task_id@ == id {
        without_queued(s.drop_last(), id)
    } else {
        without_queued(s.drop_last(), id).push(s.last())
    }
}

pub open spec fn has_task(s: Seq<DelayTask>, id: Seq<char>) -> bool {
    exists|i: int| 0 <= i < s.len() && (#[trigger] s[i]).task_id@ == id
}

pub open spec fn has_queued(s: Seq<QueuedTask>, id: Seq<char>) -> bool {
    exists|i: int| 0 <= i < s.len() && (#[trigger] s[i]).task.task_id@ == id
}

proof fn lemma_without_task_absent(s: Seq<DelayTask>, id: Seq<char>)
    requires
        !has_task(s, id),
    ensures
        without_task(s, id) == s,
    decreases s.len(),
{
    if s.len() > 0 {
        assert(!has_task(s.drop_last(), id)) by {
            if has_task(s.drop_last(), id) {
                let i = choose|i: int| 0 <= i < s.len() - 1 && (#[trigger] s.drop_last()[i]).task_id@ == id;
                assert(s[i] == s.drop_last()[i]);
            }
        }
        lemma_without_task_absent(s.drop_last(), id);
        assert(s.last() == s[s.len() - 1]);
        assert(s.drop_last().push(s.last()) =~= s);
    }
}

proof fn lemma_without_queued_absent(s: Seq<QueuedTask>, id: Seq<char>)
    requires
        !has_queued(s, id),
    ensures
        without_queued(s, id) == s,
    decreases s.len(),
{
    if s.len() > 0 {
        assert(!has_queued(s.drop_last(), id)) by {
            if has_queued(s.drop_last(), id) {
                let i = choose|i: int| 0 <= i < s.len() - 1 && (#[trigger] s.drop_last()[i]).task.task_id@ == id;
                assert(s[i] == s.drop_last()[i]);
            }
        }
        lemma_without_queued_absent(s.drop_last(), id);
        assert(s.last() == s[s.len() - 1]);
        assert(s.drop_last().push(s.last()) =~= s);
    }
}

proof fn lemma_without_task_removes(s: Seq<DelayTask>, id: Seq<char>)
    ensures
        !has_task(without_task(s, id), id),
    decreases s.len(),
{
    if s.len() > 0 {
        lemma_without_task_removes(s.drop_last(), id);
        let w = without_task(s.drop_last(), id);
        if s.last().task_id@ != id {
            assert forall|i: int| 0 <= i < w.len() + 1 implies (#[trigger] w.push(s.last())[i]).task_id@ != id by {
                if i < w.len() {
                    assert(w.push(s.last())[i] == w[i]);
                }
            }
        }
    }
}

proof fn lemma_without_queued_removes(s: Seq<QueuedTask>, id: Seq<char>)
    ensures
        !has_queued(without_queued(s, id), id),
    decreases s.len(),
{
    if s.len() > 0 {
        lemma_without_queued_removes(s.drop_last(), id);
        let w = without_queued(s.drop_last(), id);
        if s.last().task.task_id@ != id {
            assert forall|i: int| 0 <= i < w.len() + 1 implies (#[trigger] w.push(s.last())[i]).task.task_id@ != id by {
                if i < w.len() {
                    assert(w.push(s.last())[i] == w[i]);
                }
            }
        }
    }
}

/// Removes the tasks with id `id` from `v`.
fn remove_task(v: &mut Vec<DelayTask>, id: &str)
    ensures
        final(v)@ == without_task(old(v)@, id@),
{
    let ghost all = v@;
    let mut kept: Vec<DelayTask> = Vec::new();
    let mut rest = Vec::new();
    std::mem::swap(v, &mut rest);
    let mut seen: usize = 0;
    assert(all.subrange(0, 0) =~= Seq::<DelayTask>::empty());
    assert(rest.len() == all.len());
    while rest.len() > 0
        invariant
            all.len() <= usize::MAX,
            seen + rest@.len() == all.len(),
            rest@ == all.subrange(seen as int, all.len() as int),
            kept@ == without_task(all.subrange(0, seen as int), id@),
        decreases rest@.len(),
    {
        let t = rest.remove(0);
        let ghost pre = all.subrange(0, seen + 1);
        assert(pre.drop_last() =~= all.subrange(0, seen as int));
        assert(pre.last() == t);
        assert(rest@ =~= all.subrange(seen + 1, all.len() as int));
        if !text_eq(t.task_id.as_str(), id) {
            kept.push(t);
        }
        seen += 1;
    }
    assert(all.subrange(0, seen as int) =~= all);
    *v = kept;
}

/// Removes the queued tasks with id `id` from `v`.
fn remove_queued(v: &mut Vec<QueuedTask>, id: &str)
    ensures
        final(v)@ == without_queued(old(v)@, id@),
{
    let ghost all = v@;
    let mut kept: Vec<QueuedTask> = Vec::new();
    let mut rest = Vec::new();
    std::mem::swap(v, &mut rest);
    let mut seen: usize = 0;
    assert(all.subrange(0, 0) =~= Seq::<QueuedTask>::empty());
    assert(rest.len() == all.len());
    while rest.len() > 0
        invariant
            all.len() <= usize::MAX,
            seen + rest@.len() == all.len(),
            rest@ == all.subrange(seen as int, all.len() as int),
            kept@ == without_queued(all.subrange(0, seen as int), id@),
        decreases rest@.len(),
    {
        let t = rest.remove(0);
        let ghost pre = all.subrange(0, seen + 1);
        assert(pre.drop_last() =~= all.subrange(0, seen as int));
        assert(pre.last() == t);
        assert(rest@ =~= all.subrange(seen + 1, all.len() as int));
        if !text_eq(t.task.task_id.as_str(), id) {
            kept.push(t);
        }
        seen += 1;
    }
    assert(all.subrange(0, seen as int) =~= all);
    *v = kept;
}

/// The sharded delay queues, and the snapshot of persistent tasks that the index
/// topic holds.
pub struct DelayTaskManager {
    pub delay_queue_num: u32,
    pub incr_no: u32,
    pub queued: Vec<QueuedTask>,
    pub index: Vec<DelayTask>,
}

impl DelayTaskManager {
    pub open spec fn wf(&self) -> bool {
        &&& self.delay_queue_num >= 1
        &&& forall|i: int| 0 <= i < self.queued@.len() ==> (#[trigger] self.queued@[i]).shard < self.delay_queue_num
    }

    /// `delay_queue_num` queues, all empty.
    pub fn new(delay_queue_num: u32) -> (r: DelayTaskManager)
        requires
            delay_queue_num >= 1,
        ensures
            r.wf(),
            r.delay_queue_num == delay_queue_num,
            r.incr_no == 0,
            r.queued@.len() == 0,
            r.index@.len() == 0,
    {
        DelayTaskManager { delay_queue_num, incr_no: 0, queued: Vec::new(), index: Vec::new() }
    }

    pub fn contains_task(&self, task_id: &str) -> (r: bool)
        ensures
            r == has_queued(self.queued@, task_id@),
    {
        let mut i: usize = 0;
        while i < self.queued.len()
            invariant
                i <= self.queued@.len(),
                forall|j: int| 0 <= j < i ==> (#[trigger] self.queued@[j]).task.task_id@ != task_id@,
            decreases self.queued@.len() - i,
        {
            if text_eq(self.queued[i].task.task_id.as_str(), task_id) {
                assert(self.queued@[i as int].task.task_id@ == task_id@);
                return true;
            }
            i += 1;
        }
        false
    }

    /// Puts a task in the next queue in turn.
    pub fn enqueue_task(&mut self, task: DelayTask)
        requires
            old(self).wf(),
        ensures
            final(self).wf(),
            final(self).delay_queue_num == old(self).delay_queue_num,
            final(self).incr_no == (if old(self).incr_no == u32::MAX { 0 } else { old(self).incr_no + 1 }),
            final(self).queued@ == old(self).queued@.push(QueuedTask { task, shard: old(self).incr_no % old(self).delay_queue_num }),
            final(self).index == old(self).index,
    {
        let shard = self.incr_no % self.delay_queue_num;
        self.incr_no = if self.incr_no == u32::MAX { 0 } else { self.incr_no + 1 };
        self.queued.push(QueuedTask { task, shard });
    }

    /// Removes a task from the queues and from the index. A missing task is a
    /// no-op.
    pub fn delete_task(&mut self, task_id: &str) -> (r: bool)
        requires
            old(self).wf(),
        ensures
            final(self).wf(),
            r == has_queued(old(self).queued@, task_id@),
            final(self).delay_queue_num == old(self).delay_queue_num,
            final(self).incr_no == old(self).incr_no,
            final(self).queued@ == without_queued(old(self).queued@, task_id@),
            final(self).index@ == without_task(old(self).index@, task_id@),
            !has_queued(final(self).queued@, task_id@),
            !has_task(final(self).index@, task_id@),
    {
        let found = self.contains_task(task_id);
        let ghost q0 = self.queued@;
        remove_queued(&mut self.queued, task_id);
        remove_task(&mut self.index, task_id);
        proof {
            lemma_without_queued_removes(q0, task_id@);
            lemma_without_task_removes(old(self).index@, task_id@);
            lemma_without_queued_shards(q0, task_id@, self.delay_queue_num);
        }
        found
    }

    /// Adds a task, replacing one with the same id. A persistent task is also
    /// written to the index. Returns the task id.
    pub fn create_task(&mut self, reg: &mut MetricsRegistry, task: DelayTask) -> (r: String)
        requires
            old(self).wf(),
        ensures
            final(self).wf(),
            final(reg).get("delay_task_created"@, Seq::empty()) == Some(bumped(old(reg).get("delay_task_created"@, Seq::empty()))),
            final(reg).same_except(old(reg), "delay_task_created"@, Seq::empty()),
            r@ == task.task_id@,
            final(self).delay_queue_num == old(self).delay_queue_num,
            final(self).queued@ == without_queued(old(self).queued@, task.task_id@).push(
                QueuedTask { task, shard: old(self).incr_no % old(self).delay_queue_num },
            ),
            final(self).index@ == if task.persistent {
                without_task(old(self).index@, task.task_id@).push(task)
            } else {
                without_task(old(self).index@, task.task_id@)
            },
    {
        let id = task.task_id.clone();
        self.delete_task(id.as_str());
        if task.persistent {
            self.index.push(task.duplicate());
        }
        self.enqueue_task(task);
        record_delay_task_created(reg);
        id
    }

    /// The earliest firing time in queue `shard`, if it holds a task.
    pub fn next_deadline(&self, shard: u32) -> (r: Option<u64>)
        ensures
            match r {
                Some(t) => exists|i: int| 0 <= i < self.queued@.len() && (#[trigger] self.queued@[i]).shard == shard
                    && self.queued@[i].task.delay_target_time == t,
                None => forall|i: int| 0 <= i < self.queued@.len() ==> (#[trigger] self.queued@[i]).shard != shard,
            },
            r matches Some(t) ==> forall|i: int| 0 <= i < self.queued@.len() && (#[trigger] self.queued@[i]).shard == shard
                ==> t <= self.queued@[i].task.delay_target_time,
    {
        let mut best: Option<u64> = None;
        let mut i: usize = 0;
        while i < self.queued.len()
            invariant
                i <= self.queued@.len(),
                match best {
                    Some(t) => exists|k: int| 0 <= k < i && (#[trigger] self.queued@[k]).shard == shard
                        && self.queued@[k].task.delay_target_time == t,
                    None => forall|k: int| 0 <= k < i ==> (#[trigger] self.queued@[k]).shard != shard,
                },
                best matches Some(t) ==> forall|k: int| 0 <= k < i && (#[trigger] self.queued@[k]).shard == shard
                    ==> t <= self.queued@[k].task.delay_target_time,
            decreases self.queued@.len() - i,
        {
            if self.queued[i].shard == shard {
                let t = self.queued[i].task.delay_target_time;
                match best {
                    Some(b) => {
                        if t < b {
                            best = Some(t);
                        }
                    },
                    None => {
                        best = Some(t);
                    },
                }
            }
            i += 1;
        }
        best
    }

    /// Takes the earliest task of queue `shard` whose time has come, if any.
    pub fn pop_expired(&mut self, shard: u32, now: u64) -> (r: Option<DelayTask>)
        requires
            old(self).wf(),
        ensures
            final(self).wf(),
            final(self).delay_queue_num == old(self).delay_queue_num,
            final(self).incr_no == old(self).incr_no,
            final(self).index == old(self).index,
            match r {
                Some(t) => exists|i: int| 0 <= i < old(self).queued@.len() && #[trigger] old(self).queued@[i] == (QueuedTask { task: t, shard })
                    && t.delay_target_time <= now
                    && (forall|j: int| 0 <= j < old(self).queued@.len() && (#[trigger] old(self).queued@[j]).shard == shard
                        ==> t.delay_target_time <= old(self).queued@[j].task.delay_target_time)
                    && final(self).queued@ == old(self).queued@.remove(i),
                None => final(self).queued@ == old(self).queued@ && forall|j: int| 0 <= j < old(self).queued@.len()
                    && (#[trigger] old(self).queued@[j]).shard == shard ==> old(self).queued@[j].task.delay_target_time > now,
            },
    {
        let mut best: Option<usize> = None;
        let mut i: usize = 0;
        while i < self.queued.len()
            invariant
                i <= self.queued@.len(),
                self.queued@ == old(self).queued@,
                match best {
                    Some(b) => b < i && self.queued@[b as int].shard == shard
                        && forall|k: int| 0 <= k < i && (#[trigger] self.queued@[k]).shard == shard
                        ==> self.queued@[b as int].task.delay_target_time <= self.queued@[k].task.delay_target_time,
                    None => forall|k: int| 0 <= k < i ==> (#[trigger] self.queued@[k]).shard != shard,
                },
            decreases self.queued@.len() - i,
        {
            if self.queued[i].shard == shard {
                match best {
                    Some(b) => {
                        if self.queued[i].task.delay_target_time < self.queued[b].task.delay_target_time {
                            best = Some(i);
                        }
                    },
                    None => {
                        best = Some(i);
                    },
                }
            }
            i += 1;
        }
        match best {
            None => None,
            Some(b) => {
                if self.queued[b].task.delay_target_time <= now {
                    let ghost q0 = self.queued@;
                    let q = self.queued.remove(b);
                    proof {
                        assert(q0[b as int] == q);
                        assert forall|k: int| 0 <= k < self.queued@.len() implies (#[trigger] self.queued@[k]).shard < self.delay_queue_num by {
                            if k < b {
                                assert(self.queued@[k] == q0[k]);
                            } else {
                                assert(self.queued@[k] == q0[k + 1]);
                            }
                        }
                    }
                    Some(q.task)
                } else {
                    None
                }
            },
        }
    }

    /// Drops the index entry of a persistent task that ran successfully.
    pub fn finish_task(&mut self, task_id: &str)
        requires
            old(self).wf(),
        ensures
            final(self).wf(),
            final(self).delay_queue_num == old(self).delay_queue_num,
            final(self).incr_no == old(self).incr_no,
            final(self).queued == old(self).queued,
            final(self).index@ == without_task(old(self).index@, task_id@),
    {
        remove_task(&mut self.index, task_id);
    }

    /// Restores the queues from the tasks read back from the index topic: a task
    /// whose time has passed is returned to run now; the others are queued. The
    /// index holds them all again.
    pub fn recover(&mut self, stored: Vec<DelayTask>, now: u64) -> (r: Vec<DelayTask>)
        requires
            old(self).wf(),
        ensures
            final(self).wf(),
            final(self).delay_queue_num == old(self).delay_queue_num,
            final(self).index@ == old(self).index@ + stored@,
            r@ == expired_of(stored@, now),
            final(self).queued@ == old(self).queued@ + round_robin(pending_of(stored@, now), old(self).incr_no, old(self).delay_queue_num),
            final(self).incr_no == wrap_add(old(self).incr_no, pending_of(stored@, now).len()),
    {
        let ghost input = stored@;
        let mut run_now: Vec<DelayTask> = Vec::new();
        let mut rest = stored;
        let mut seen: usize = 0;
        let ghost q0 = self.queued@;
        let ghost i0 = self.index@;
        assert(input.subrange(0, 0) =~= Seq::<DelayTask>::empty());
        assert(rest.len() == input.len());
        let ghost n0 = self.incr_no;
        let ghost qn = self.delay_queue_num;
        assert(q0 + round_robin(pending_of(Seq::<DelayTask>::empty(), now), n0, qn) =~= q0);
        assert(i0 + Seq::<DelayTask>::empty() =~= i0);
        while rest.len() > 0
            invariant
                self.wf(),
                self.delay_queue_num == old(self).delay_queue_num,
                input.len() <= usize::MAX,
                seen + rest@.len() == input.len(),
                rest@ == input.subrange(seen as int, input.len() as int),
                run_now@ == expired_of(input.subrange(0, seen as int), now),
                qn == self.delay_queue_num,
                self.queued@ == q0 + round_robin(pending_of(input.subrange(0, seen as int), now), n0, qn),
                self.incr_no == wrap_add(n0, pending_of(input.subrange(0, seen as int), now).len()),
                self.index@ == i0 + input.subrange(0, seen as int),
            decreases rest@.len(),
        {
            let t = rest.remove(0);
            let ghost pre = input.subrange(0, seen + 1);
            let ghost qb = self.queued@;
            let ghost ib = self.index@;
            assert(pre.drop_last() =~= input.subrange(0, seen as int));
            assert(pre.last() == t);
            assert(rest@ =~= input.subrange(seen + 1, input.len() as int));
            self.index.push(t.duplicate());
            assert(self.index@ =~= i0 + pre);
            if t.delay_target_time < now {
                run_now.push(t);
            } else {
                let ghost tv = t;
                let ghost p0 = pending_of(input.subrange(0, seen as int), now);
                let ghost nb = self.incr_no;
                self.enqueue_task(t);
                proof {
                    assert(pending_of(pre, now) == p0.push(tv));
                    lemma_wrap_add_step(n0, p0.len());
                    assert(round_robin(p0.push(tv), n0, qn) =~= round_robin(p0, n0, qn).push(QueuedTask { task: tv, shard: nb % qn }));
                    assert(self.queued@ =~= q0 + round_robin(pending_of(pre, now), n0, qn));
                }
            }
            seen += 1;
        }
        assert(input.subrange(0, seen as int) =~= input);
        run_now
    }
}

/// `a + j` on a counter that wraps around at `u32::MAX`.
pub open spec fn wrap_add(a: u32, j: nat) -> u32 {
    ((a as nat + j) % 0x1_0000_0000) as u32
}

proof fn lemma_wrap_add_step(a: u32, j: nat)
    ensures
        wrap_add(a, j + 1) == if wrap_add(a, j) == u32::MAX { 0u32 } else { (wrap_add(a, j) + 1) as u32 },
{
    let m: nat = 0x1_0000_0000;
    let x = (a as nat + j) % m;
    assert((a as nat + j + 1) % m == if x + 1 == m { 0 } else { x + 1 }) by (nonlinear_arith)
        requires
            x == (a as nat + j) % m,
            m == 0x1_0000_0000,
    {
        vstd::arithmetic::div_mod::lemma_add_mod_noop((a as nat + j) as int, 1, m as int);
    }
}

/// The queue entries for `tasks` enqueued in turn, starting at counter `start`
/// over `n` queues: task `j` goes to queue `(start + j) mod n`, the counter
/// wrapping around at `u32::MAX`.
pub open spec fn round_robin(tasks: Seq<DelayTask>, start: u32, n: u32) -> Seq<QueuedTask> {
    Seq::new(tasks.len(), |j: int| QueuedTask { task: tasks[j], shard: wrap_add(start, j as nat) % n })
}

proof fn lemma_without_queued_shards(s: Seq<QueuedTask>, id: Seq<char>, n: u32)
    requires
        forall|i: int| 0 <= i < s.len() ==> (#[trigger] s[i]).shard < n,
    ensures
        forall|i: int| 0 <= i < without_queued(s, id).len() ==> (#[trigger] without_queued(s, id)[i]).shard < n,
    decreases s.len(),
{
    if s.len() > 0 {
        assert forall|i: int| 0 <= i < s.len() - 1 implies (#[trigger] s.drop_last()[i]).shard < n by {
            assert(s.drop_last()[i] == s[i]);
        }
        lemma_without_queued_shards(s.drop_last(), id, n);
        assert(s.last() == s[s.len() - 1]);
        let w = without_queued(s.drop_last(), id);
        if s.last().task.task_id@ != id {
            assert forall|i: int| 0 <= i < w.len() + 1 implies (#[trigger] w.push(s.last())[i]).shard < n by {
                if i < w.len() {
                    assert(w.push(s.last())[i] == w[i]);
                }
            }
        }
    }
}

/// The tasks of `s` whose time is before `now`, in order.
pub open spec fn expired_of(s: Seq<DelayTask>, now: u64) -> Seq<DelayTask>
    decreases s.len(),
{
    if s.len() == 0 {
        Seq::empty()
    } else if s.last().delay_target_time < now {
        expired_of(s.drop_last(), now).push(s.last())
    } else {
        expired_of(s.drop_last(), now)
    }
}

/// The tasks of `s` whose time is `now` or later, in order.
pub open spec fn pending_of(s: Seq<DelayTask>, now: u64) -> Seq<DelayTask>
    decreases s.len(),
{
    if s.len() == 0 {
        Seq::empty()
    } else if s.last().delay_target_time >= now {
        pending_of(s.drop_last(), now).push(s.last())
    } else {
        pending_of(s.drop_last(), now)
    }
}

/// Creating a task and then deleting it by its id leaves no trace of it, in the
/// queues or in the index, and leaves every other task as it was; when no task
/// had that id before, both are exactly as before.
pub proof fn lemma_create_then_delete(q: Seq<QueuedTask>, idx: Seq<DelayTask>, t: DelayTask, shard: u32)
    ensures
        without_queued(without_queued(q, t.task_id@).push(QueuedTask { task: t, shard }), t.task_id@) == without_queued(q, t.task_id@),
        without_task(
            if t.persistent { without_task(idx, t.task_id@).push(t) } else { without_task(idx, t.task_id@) },
            t.task_id@,
        ) == without_task(idx, t.task_id@),
        !has_queued(q, t.task_id@) ==> without_queued(q, t.task_id@) == q,
        !has_task(idx, t.task_id@) ==> without_task(idx, t.task_id@) == idx,
{
    let id = t.task_id@;
    let wq = without_queued(q, id);
    let wi = without_task(idx, id);
    lemma_without_queued_removes(q, id);
    lemma_without_task_removes(idx, id);
    lemma_without_queued_absent(wq, id);
    lemma_without_task_absent(wi, id);
    assert(wq.push(QueuedTask { task: t, shard }).drop_last() =~= wq);
    assert(wi.push(t).drop_last() =~= wi);
    if !has_queued(q, id) {
        lemma_without_queued_absent(q, id);
    }
    if !has_task(idx, id) {
        lemma_without_task_absent(idx, id);
    }
}

/// Recovery loses no task: every task read back from the index is either run at
/// once (its time is before `now`) or put back in the queues (its time is `now`
/// or later).
pub proof fn lemma_recover_keeps_every_task(s: Seq<DelayTask>, now: u64)
    ensures
        forall|i: int| 0 <= i < s.len() && s[i].delay_target_time < now ==> expired_of(s, now).contains(#[trigger] s[i]),
        forall|i: int| 0 <= i < s.len() && s[i].delay_target_time >= now ==> pending_of(s, now).contains(#[trigger] s[i]),
    decreases s.len(),
{
    if s.len() > 0 {
        let t = s.drop_last();
        lemma_recover_keeps_every_task(t, now);
        assert forall|i: int| 0 <= i < s.len() && s[i].delay_target_time < now implies expired_of(s, now).contains(#[trigger] s[i]) by {
            if i < s.len() - 1 {
                assert(t[i] == s[i]);
                assert(expired_of(t, now).contains(t[i]));
                let w = choose|w: int| 0 <= w < expired_of(t, now).len() && expired_of(t, now)[w] == t[i];
                if s.last().delay_target_time < now {
                    assert(expired_of(s, now)[w] == s[i]);
                }
            } else {
                assert(s[i] == s.last());
                assert(expired_of(s, now)[expired_of(t, now).len() as int] == s[i]);
            }
        }
        assert forall|i: int| 0 <= i < s.len() && s[i].delay_target_time >= now implies pending_of(s, now).contains(#[trigger] s[i]) by {
            if i < s.len() - 1 {
                assert(t[i] == s[i]);
                assert(pending_of(t, now).contains(t[i]));
                let w = choose|w: int| 0 <= w < pending_of(t, now).len() && pending_of(t, now)[w] == t[i];
                if s.last().delay_target_time >= now {
                    assert(pending_of(s, now)[w] == s[i]);
                }
            } else {
                assert(s[i] == s.last());
                assert(pending_of(s, now)[pending_of(t, now).len() as int] == s[i]);
            }
        }
    }
}

/// Where a record read back from the index topic sits.
#[derive(Debug)]
pub struct RecordPosition {
    pub shard: String,
    pub offset: u64,
}

/// The next offset to read on one shard of the index topic.
#[derive(Debug)]
pub struct ShardCursor {
    pub shard: String,
    pub next_offset: u64,
}

/// The offset after `o`; the largest offset has none and stays.
pub open spec fn succ(o: u64) -> u64 {
    if o == u64::MAX { o } else { (o + 1) as u64 }
}

pub open spec fn max_u64(a: u64, b: u64) -> u64 {
    if a >= b { a } else { b }
}

/// The next offset recorded for `shard` (the latest entry), or 0.
pub open spec fn cursor_of(s: Seq<ShardCursor>, shard: Seq<char>) -> u64
    decreases s.len(),
{
    if s.len() == 0 {
        0
    } else if s.last().shard@ == shard {
        s.last().next_offset
    } else {
        cursor_of(s.drop_last(), shard)
    }
}

/// `s` without the entries for `shard`.
pub open spec fn without_cursor(s: Seq<ShardCursor>, shard: Seq<char>) -> Seq<ShardCursor>
    decreases s.len(),
{
    if s.len() == 0 {
        Seq::empty()
    } else if s.last().shard@ == shard {
        without_cursor(s.drop_last(), shard)
    } else {
        without_cursor(s.drop_last(), shard).push(s.last())
    }
}

/// One past the largest offset of `data` on `shard`, or 0.
pub open spec fn next_after(data: Seq<RecordPosition>, shard: Seq<char>) -> u64
    decreases data.len(),
{
    if data.len() == 0 {
        0
    } else if data.last().shard@ == shard {
        max_u64(next_after(data.drop_last(), shard), succ(data.last().offset))
    } else {
        next_after(data.drop_last(), shard)
    }
}

proof fn lemma_without_cursor(s: Seq<ShardCursor>, shard: Seq<char>, other: Seq<char>)
    ensures
        other != shard ==> cursor_of(without_cursor(s, shard), other) == cursor_of(s, other),
    decreases s.len(),
{
    if s.len() > 0 {
        lemma_without_cursor(s.drop_last(), shard, other);
        let w = without_cursor(s.drop_last(), shard);
        if s.last().shard@ != shard {
            assert(w.push(s.last()).drop_last() =~= w);
        }
    }
}

fn cursor_get(offsets: &Vec<ShardCursor>, shard: &str) -> (r: u64)
    ensures
        r == cursor_of(offsets@, shard@),
{
    let mut i: usize = offsets.len();
    assert(offsets@.subrange(0, i as int) =~= offsets@);
    while i > 0
        invariant
            i <= offsets@.len(),
            cursor_of(offsets@, shard@) == cursor_of(offsets@.subrange(0, i as int), shard@),
        decreases i,
    {
        let ghost pre = offsets@.subrange(0, i as int);
        assert(pre.last() == offsets@[i - 1]);
        if text_eq(offsets[i - 1].shard.as_str(), shard) {
            return offsets[i - 1].next_offset;
        }
        assert(pre.drop_last() =~= offsets@.subrange(0, i - 1));
        i -= 1;
    }
    0
}

fn cursor_set(offsets: &mut Vec<ShardCursor>, shard: &str, next_offset: u64)
    ensures
        cursor_of(final(offsets)@, shard@) == next_offset,
        forall|o: Seq<char>| o != shard@ ==> #[trigger] cursor_of(final(offsets)@, o) == cursor_of(old(offsets)@, o),
{
    let ghost all = offsets@;
    let mut kept: Vec<ShardCursor> = Vec::new();
    let mut rest = Vec::new();
    std::mem::swap(offsets, &mut rest);
    let mut seen: usize = 0;
    assert(all.subrange(0, 0) =~= Seq::<ShardCursor>::empty());
    assert(rest.len() == all.len());
    while rest.len() > 0
        invariant
            all.len() <= usize::MAX,
            seen + rest@.len() == all.len(),
            rest@ == all.subrange(seen as int, all.len() as int),
            kept@ == without_cursor(all.subrange(0, seen as int), shard@),
        decreases rest@.len(),
    {
        let c = rest.remove(0);
        let ghost pre = all.subrange(0, seen + 1);
        assert(pre.drop_last() =~= all.subrange(0, seen as int));
        assert(pre.last() == c);
        assert(rest@ =~= all.subrange(seen + 1, all.len() as int));
        if !text_eq(c.shard.as_str(), shard) {
            kept.push(c);
        }
        seen += 1;
    }
    assert(all.subrange(0, seen as int) =~= all);
    let ghost w = kept@;
    kept.push(ShardCursor { shard: String::from_str(shard), next_offset });
    assert(kept@.drop_last() =~= w);
    *offsets = kept;
    proof {
        assert forall|o: Seq<char>| o != shard@ implies #[trigger] cursor_of(offsets@, o) == cursor_of(all, o) by {
            lemma_without_cursor(all, shard@, o);
        }
    }
}

/// Moves the read position of each shard past the records just read: a shard's
/// next offset becomes the larger of its current one and one past its last
/// record in `data`.
pub fn update_offsets_from_records(data: &Vec<RecordPosition>, offsets: &mut Vec<ShardCursor>)
    ensures
        forall|s: Seq<char>| #[trigger] cursor_of(final(offsets)@, s) == max_u64(cursor_of(old(offsets)@, s), next_after(data@, s)),
{
    let ghost start = offsets@;
    let mut i: usize = 0;
    assert forall|s: Seq<char>| #[trigger] cursor_of(offsets@, s) == max_u64(cursor_of(start, s), next_after(data@.subrange(0, 0), s)) by {
        assert(data@.subrange(0, 0).len() == 0);
    }
    while i < data.len()
        invariant
            i <= data@.len(),
            forall|s: Seq<char>| #[trigger] cursor_of(offsets@, s) == max_u64(cursor_of(start, s), next_after(data@.subrange(0, i as int), s)),
        decreases data@.len() - i,
    {
        let ghost pre = data@.subrange(0, i + 1);
        assert(pre.drop_last() =~= data@.subrange(0, i as int));
        assert(pre.last() == data@[i as int]);
        let ghost before = offsets@;
        let rec = &data[i];
        let current = cursor_get(offsets, rec.shard.as_str());
        let after = if rec.offset == u64::MAX { rec.offset } else { rec.offset + 1 };
        let next = if current >= after { current } else { after };
        cursor_set(offsets, rec.shard.as_str(), next);
        proof {
            assert forall|s: Seq<char>| #[trigger] cursor_of(offsets@, s) == max_u64(cursor_of(start, s), next_after(pre, s)) by {
                if s == rec.shard@ {
                    assert(cursor_of(before, s) == max_u64(cursor_of(start, s), next_after(data@.subrange(0, i as int), s)));
                } else {
                    assert(cursor_of(before, s) == max_u64(cursor_of(start, s), next_after(data@.subrange(0, i as int), s)));
                }
            }
        }
        i += 1;
    }
    assert(data@.subrange(0, i as int) =~= data@);
}

/// What one failed or successful page read during recovery leads to.
#[derive(Clone, Copy, Debug, PartialEq, Eq, Structural)]
pub enum ReadStep {
    /// Use the page; the failure count starts over.
    Data,
    /// Wait a second and read the page again.
    Retry,
    /// Give up recovery.
    Abort,
}

/// Counts a page read: a success resets the failure count, and the
/// `MAX_READ_RETRY`-th failure in a row aborts recovery.
pub fn read_retry_step(retry_count: &mut u32, succeeded: bool) -> (r: ReadStep)
    ensures
        succeeded ==> r == ReadStep::Data && *final(retry_count) == 0,
        !succeeded ==> *final(retry_count) == (if *old(retry_count) == u32::MAX { u32::MAX } else { (*old(retry_count) + 1) as u32 }),
        !succeeded ==> r == if *final(retry_count) >= MAX_READ_RETRY { ReadStep::Abort } else { ReadStep::Retry },
{
    if succeeded {
        *retry_count = 0;
        return ReadStep::Data;
    }
    if *retry_count < u32::MAX {
        *retry_count = *retry_count + 1;
    }
    if *retry_count >= MAX_READ_RETRY {
        ReadStep::Abort
    } else {
        ReadStep::Retry
    }
}

/// Recovery reports progress once `PROGRESS_LOG_INTERVAL` more tasks were
/// recovered since the last report.
pub fn should_log_progress(recovered: u64, last_logged: u64) -> (r: bool)
    ensures
        r == (recovered >= last_logged && recovered - last_logged >= PROGRESS_LOG_INTERVAL),
{
    recovered >= last_logged && recovered - last_logged >= PROGRESS_LOG_INTERVAL
}

/// Seconds between a task's target time and when it ran; zero when early.
pub fn schedule_latency(now: u64, target: u64) -> (r: u64)
    ensures
        r == if now > target { (now - target) as u64 } else { 0 },
{
    if now > target {
        now - target
    } else {
        0
    }
}

/// What the expiry logic reads of a client's session.
#[derive(Debug)]
pub struct MqttSession {
    pub client_id: String,
    /// Seconds to wait before publishing the last will, if the client set it.
    pub last_will_delay_interval: Option<u64>,
}

/// The session of a client: the cached one when there is one, else the stored
/// one; the flag tells whether it came from the cache.
pub fn get_session(cached: Option<MqttSession>, stored: Option<MqttSession>) -> (r: Option<(MqttSession, bool)>)
    ensures
        cached matches Some(c) ==> r == Some((c, true)),
        cached is None ==> match stored {
            Some(s) => r == Some((s, false)),
            None => r is None,
        },
{
    match cached {
        Some(c) => Some((c, true)),
        None => match stored {
            Some(s) => Some((s, false)),
            None => None,
        },
    }
}

/// The session of an expiring client, as found in the cache or the store.
#[derive(Clone, Copy, Debug, PartialEq, Eq, Structural)]
pub struct SessionSnapshot {
    /// Found in the broker cache (else in the store).
    pub in_cache: bool,
    /// Seconds to wait before publishing the last will, if the client set it.
    pub last_will_delay_interval: Option<u64>,
}

/// What expiring a session does.
#[derive(Debug)]
pub struct SessionExpirePlan {
    pub delete_from_cache: bool,
    pub delete_from_store: bool,
    /// The notification to send to every broker.
    pub notify: Option<NodeCallData>,
    /// The delayed last-will task to create.
    pub schedule: Option<DelayTask>,
    /// Publish the stored last-will message now, if there is one.
    pub send_stored_last_will: bool,
}

/// `t` publishes the last will of `client` after `d` seconds from `now`.
pub open spec fn lastwill_task_for(t: DelayTask, client: Seq<char>, now: u64, d: u64) -> bool {
    &&& t.task_id@ == client
    &&& t.persistent
    &&& t.create_time == now
    &&& t.delay_target_time == (if now > u64::MAX - d { u64::MAX } else { (now + d) as u64 })
    &&& match t.data {
        DelayTaskData::MQTTLastwillExpire(c) => c@ == client,
        _ => false,
    }
}

/// What the plan needs of a session found by `get_session`.
pub fn session_snapshot(found: &Option<(MqttSession, bool)>) -> (r: Option<SessionSnapshot>)
    ensures
        match *found {
            Some((s, in_cache)) => r == Some(SessionSnapshot { in_cache, last_will_delay_interval: s.last_will_delay_interval }),
            None => r is None,
        },
{
    match found {
        Some((s, in_cache)) => Some(SessionSnapshot { in_cache: *in_cache, last_will_delay_interval: s.last_will_delay_interval }),
        None => None,
    }
}

/// The steps of a session expiry: delete the session where it was found,
/// notify the brokers, then either schedule the last will after its delay or
/// publish it at once.
pub fn plan_session_expire(client_id: &str, session: Option<SessionSnapshot>, now: u64) -> (r: SessionExpirePlan)
    ensures
        session is None ==> !r.delete_from_cache && !r.delete_from_store && r.notify is None && r.schedule is None
            && !r.send_stored_last_will,
        session matches Some(s) ==> {
            &&& r.delete_from_cache == s.in_cache
            &&& r.delete_from_store == !s.in_cache
            &&& match r.notify {
                Some(NodeCallData::DeleteSession(c)) => c@ == client_id@,
                _ => false,
            }
            &&& match s.last_will_delay_interval {
                Some(d) => if d > 0 {
                    !r.send_stored_last_will && match r.schedule {
                        Some(t) => lastwill_task_for(t, client_id@, now, d),
                        None => false,
                    }
                } else {
                    r.send_stored_last_will && r.schedule is None
                },
                None => r.send_stored_last_will && r.schedule is None,
            }
        },
{
    match session {
        None => SessionExpirePlan {
            delete_from_cache: false,
            delete_from_store: false,
            notify: None,
            schedule: None,
            send_stored_last_will: false,
        },
        Some(s) => {
            let notify = Some(NodeCallData::DeleteSession(String::from_str(client_id)));
            match s.last_will_delay_interval {
                Some(d) if d > 0 => {
                    let target = if now > u64::MAX - d { u64::MAX } else { now + d };
                    let task = DelayTask::build_persistent(
                        String::from_str(client_id),
                        DelayTaskData::MQTTLastwillExpire(String::from_str(client_id)),
                        target,
                        now,
                    );
                    SessionExpirePlan {
                        delete_from_cache: s.in_cache,
                        delete_from_store: !s.in_cache,
                        notify,
                        schedule: Some(task),
                        send_stored_last_will: false,
                    }
                },
                _ => SessionExpirePlan {
                    delete_from_cache: s.in_cache,
                    delete_from_store: !s.in_cache,
                    notify,
                    schedule: None,
                    send_stored_last_will: true,
                },
            }
        },
    }
}

/// The notification that publishes a client's stored last will, if it has one;
/// the stored message is then deleted.
pub fn plan_lastwill_expire(client_id: &str, stored_will: Option<Vec<u8>>) -> (r: Option<NodeCallData>)
    ensures
        stored_will is None <==> r is None,
        stored_will matches Some(w) ==> match r {
            Some(NodeCallData::SendLastWillMessage(item)) => item.client_id@ == client_id@ && item.last_will_message == w,
            _ => false,
        },
{
    match stored_will {
        None => None,
        Some(w) => Some(
            NodeCallData::SendLastWillMessage(
                LastWillMessageItem { client_id: String::from_str(client_id), last_will_message: w },
            ),
        ),
    }
}

} // verus!
