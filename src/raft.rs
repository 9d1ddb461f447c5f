use vstd::prelude::*;
use std::collections::hash_map::DefaultHasher;
use std::hash::Hasher;
use vstd::std_specs::hash::DefaultHasherAdditionalSpecFns;
use vstd::utf8::encode_utf8;
use crate::keys::{decimal, push_decimal, shard_name, shard_name_spec};
use crate::metrics::raft::{record_write_failure, record_write_request, record_write_success};
use crate::metrics::{bumped, MetricsRegistry};
use crate::text::text_eq;

verus! {

/// Lower bound on the time a Raft write may take before it is abandoned.
pub const DEFAULT_RAFT_WRITE_TIMEOUT_SEC: u64 = 30;

/// Writes slower than this many milliseconds are reported as slow.
pub const SLOW_RAFT_WRITE_WARN_THRESHOLD_MS: u64 = 1000;

/// The hash of a routing key: a `DefaultHasher` fed the key's bytes and then the
/// byte 0xff, as `str`'s `Hash` impl does, so the same key always lands on the
/// same shard and worker.
pub open spec fn key_hash_spec(key: Seq<char>) -> u64 {
    DefaultHasher::spec_finish(seq![encode_utf8(key), seq![0xffu8]])
}

pub fn key_hash(key: &str) -> (r: u64)
    ensures
        r == key_hash_spec(key@),
{
    let mut h = DefaultHasher::new();
    h.write(key.as_bytes());
    let mut end: Vec<u8> = Vec::new();
    end.push(0xff);
    h.write(end.as_slice());
    assert(h@ =~= seq![encode_utf8(key@), seq![0xffu8]]);
    h.finish()
}

/// The three Raft groups of the meta service.
#[derive(Clone, Copy, Debug, PartialEq, Eq, Structural)]
pub enum RaftStateMachineName {
    METADATA,
    OFFSET,
    DATA,
}

/// The group that a name or alias denotes.
pub open spec fn alias_of(t: Seq<char>) -> Option<RaftStateMachineName> {
    if t == "metadata"@ || t == "meta"@ {
        Some(RaftStateMachineName::METADATA)
    } else if t == "offset"@ {
        Some(RaftStateMachineName::OFFSET)
    } else if t == "data"@ || t == "mqtt"@ {
        Some(RaftStateMachineName::DATA)
    } else {
        None
    }
}

/// The position of the last `_` of `s`, or -1.
pub open spec fn last_underscore(s: Seq<char>) -> int
    decreases s.len(),
{
    if s.len() == 0 {
        -1
    } else if s.last() == '_' {
        s.len() - 1
    } else {
        last_underscore(s.drop_last())
    }
}

/// `s` up to its last `_`, or all of `s` when it has none.
pub open spec fn group_prefix(s: Seq<char>) -> Seq<char> {
    let u = last_underscore(s);
    if u >= 0 {
        s.subrange(0, u)
    } else {
        s
    }
}

/// The group a name denotes: a group name or alias, or a shard name
/// `{group}_{index}` whose group part is one.
pub open spec fn parse_group_spec(s: Seq<char>) -> Option<RaftStateMachineName> {
    match alias_of(s) {
        Some(g) => Some(g),
        None => alias_of(group_prefix(s)),
    }
}

pub open spec fn group_name_spec(g: RaftStateMachineName) -> Seq<char> {
    match g {
        RaftStateMachineName::METADATA => "metadata"@,
        RaftStateMachineName::OFFSET => "offset"@,
        RaftStateMachineName::DATA => "data"@,
    }
}

fn alias(t: &str) -> (r: Option<RaftStateMachineName>)
    ensures
        r == alias_of(t@),
{
    if text_eq(t, "metadata") || text_eq(t, "meta") {
        Some(RaftStateMachineName::METADATA)
    } else if text_eq(t, "offset") {
        Some(RaftStateMachineName::OFFSET)
    } else if text_eq(t, "data") || text_eq(t, "mqtt") {
        Some(RaftStateMachineName::DATA)
    } else {
        None
    }
}

impl RaftStateMachineName {
    pub fn as_str(&self) -> (r: &'static str)
        ensures
            r@ == group_name_spec(*self),
    {
        match self {
            RaftStateMachineName::METADATA => "metadata",
            RaftStateMachineName::OFFSET => "offset",
            RaftStateMachineName::DATA => "data",
        }
    }

    /// Reads a group from its name, an alias (`meta`, `mqtt`) or a shard name.
    pub fn parse_name(s: &str) -> (r: Result<RaftStateMachineName, String>)
        ensures
            match r {
                Ok(g) => parse_group_spec(s@) == Some(g),
                Err(msg) => parse_group_spec(s@) is None && msg@ == "Invalid RaftStateMachineName: "@ + s@,
            },
    {
        if let Some(g) = alias(s) {
            return Ok(g);
        }
        let n = s.unicode_len();
        let mut i: usize = n;
        proof {
            assert(s@.subrange(0, n as int) =~= s@);
        }
        while i > 0 && s.get_char(i - 1) != '_'
            invariant
                i <= n,
                n == s@.len(),
                last_underscore(s@) == last_underscore(s@.subrange(0, i as int)),
            decreases i,
        {
            proof {
                let pre = s@.subrange(0, i as int);
                assert(pre.last() == s@[i - 1]);
                assert(pre.drop_last() =~= s@.subrange(0, i - 1));
            }
            i -= 1;
        }
        proof {
            if i > 0 {
                let pre = s@.subrange(0, i as int);
                assert(pre.last() == s@[i - 1]);
            }
        }
        let g = if i > 0 {
            alias(s.substring_char(0, i - 1))
        } else {
            alias(s)
        };
        match g {
            Some(g) => Ok(g),
            None => {
                let mut msg = String::from_str("Invalid RaftStateMachineName: ");
                msg.append(s);
                Err(msg)
            },
        }
    }
}

impl std::str::FromStr for RaftStateMachineName {
    type Err = String;

    fn from_str(s: &str) -> Result<Self, Self::Err> {
        RaftStateMachineName::parse_name(s)
    }
}

/// Failures of the meta service's write path.
#[derive(Debug, PartialEq, Eq)]
pub enum MetaServiceError {
    /// The group was shut down; carries the group name.
    RaftNodeHasStopped(String),
    /// The Raft library rejected the write; carries its message.
    RaftWriteFailed(String),
    /// Any other failure, with its message.
    CommonError(String),
}

/// Lifecycle of a Raft group.
#[derive(Clone, Copy, Debug, PartialEq, Eq, Structural)]
pub enum GroupState {
    Starting,
    Running,
    ShuttingDown,
    Stopped,
}

/// The timeout of one Raft write: the configured value, but never less than the
/// default.
pub fn raft_write_timeout_sec(configured: u64) -> (r: u64)
    ensures
        r == if configured > DEFAULT_RAFT_WRITE_TIMEOUT_SEC { configured } else { DEFAULT_RAFT_WRITE_TIMEOUT_SEC },
{
    if configured > DEFAULT_RAFT_WRITE_TIMEOUT_SEC {
        configured
    } else {
        DEFAULT_RAFT_WRITE_TIMEOUT_SEC
    }
}

/// A write that took longer than the threshold is reported as slow.
pub fn is_slow_write(duration_ms: u64) -> (r: bool)
    ensures
        r == (duration_ms > SLOW_RAFT_WRITE_WARN_THRESHOLD_MS),
{
    duration_ms > SLOW_RAFT_WRITE_WARN_THRESHOLD_MS
}

/// The index of the shard that writes with routing key `key` go to: shard 0 for
/// the empty key, else the key's hash modulo the number of shards.
pub open spec fn route_index(key: Seq<char>, n: u32) -> u32
    recommends
        n > 0,
{
    if key.len() == 0 {
        0
    } else {
        (key_hash_spec(key) % (n as u64)) as u32
    }
}

/// Where one write goes and how long it may take.
#[derive(Debug)]
pub struct WritePlan {
    pub shard_index: u32,
    pub shard_name: String,
    pub timeout_sec: u64,
}

/// How a submitted write ended.
#[derive(Debug)]
pub enum WriteOutcome {
    /// Committed and applied.
    Applied,
    /// Rejected by the Raft library, with its message.
    Failed(String),
    /// No answer within the timeout.
    TimedOut,
}

/// `Write {group} timeout after {n}s, data_type={t}`
pub open spec fn timeout_message_spec(group: Seq<char>, secs: nat, data_type: Seq<char>) -> Seq<char> {
    "Write "@ + group + " timeout after "@ + decimal(secs) + "s, data_type="@ + data_type
}

pub fn timeout_message(group: &str, secs: u64, data_type: &str) -> (r: String)
    ensures
        r@ == timeout_message_spec(group@, secs as nat, data_type@),
{
    let mut s = String::from_str("Write ");
    s.append(group);
    s.append(" timeout after ");
    push_decimal(&mut s, secs);
    s.append("s, data_type=");
    s.append(data_type);
    assert(s@ =~= timeout_message_spec(group@, secs as nat, data_type@));
    s
}

/// What planning a write with routing key `key` on group `g` does: on a
/// stopped group it fails with `RaftNodeHasStopped` and counts nothing; else
/// it names the routed shard and the timeout `max(cfg, 30)`, and counts one
/// request on that shard, leaving every other series as it was.
pub open spec fn write_planned(
    g: RaftGroup,
    key: Seq<char>,
    cfg: u64,
    before: MetricsRegistry,
    after: MetricsRegistry,
    r: Result<WritePlan, MetaServiceError>,
) -> bool {
    if g.stopped() {
        &&& after == before
        &&& match r {
            Err(MetaServiceError::RaftNodeHasStopped(n)) => n@ == g.group_name@,
            _ => false,
        }
    } else {
        match r {
            Ok(plan) => {
                let name = shard_name_spec(g.group_name@, route_index(key, g.group_num) as nat);
                &&& plan.shard_index == route_index(key, g.group_num)
                &&& plan.shard_name@ == name
                &&& plan.timeout_sec == if cfg > DEFAULT_RAFT_WRITE_TIMEOUT_SEC { cfg } else { DEFAULT_RAFT_WRITE_TIMEOUT_SEC }
                &&& after.get("raft_write_requests"@, seq![name]) == Some(bumped(before.get("raft_write_requests"@, seq![name])))
                &&& after.same_except(&before, "raft_write_requests"@, seq![name])
            },
            Err(_) => false,
        }
    }
}

/// A fixed-size set of Raft shards under one name; writes are routed to a shard
/// by hashing their key.
pub struct RaftGroup {
    pub group_name: String,
    pub group_num: u32,
    pub state: GroupState,
}

impl RaftGroup {
    pub open spec fn wf(&self) -> bool {
        self.group_num >= 1
    }

    pub open spec fn stopped(&self) -> bool {
        self.state == GroupState::ShuttingDown || self.state == GroupState::Stopped
    }

    /// A group of `group_num` shards, at least one.
    pub fn new(group_name: &str, group_num: u32) -> (r: RaftGroup)
        ensures
            r.wf(),
            r.group_name@ == group_name@,
            r.group_num == if group_num >= 1 { group_num } else { 1 },
            r.state == GroupState::Starting,
    {
        RaftGroup {
            group_name: String::from_str(group_name),
            group_num: if group_num >= 1 { group_num } else { 1 },
            state: GroupState::Starting,
        }
    }

    /// Marks a starting group as running; any other state is kept.
    pub fn start(&mut self)
        ensures
            final(self).group_name == old(self).group_name,
            final(self).group_num == old(self).group_num,
            final(self).state == if old(self).state == GroupState::Starting { GroupState::Running } else { old(self).state },
    {
        if self.state == GroupState::Starting {
            self.state = GroupState::Running;
        }
    }

    /// Begins shutting the group down. Returns whether the caller must now shut
    /// each shard down; a second call returns false and changes nothing.
    pub fn shutdown(&mut self) -> (r: bool)
        ensures
            final(self).group_name == old(self).group_name,
            final(self).group_num == old(self).group_num,
            r == !old(self).stopped(),
            final(self).state == if old(self).stopped() { old(self).state } else { GroupState::ShuttingDown },
    {
        if self.state == GroupState::ShuttingDown || self.state == GroupState::Stopped {
            false
        } else {
            self.state = GroupState::ShuttingDown;
            true
        }
    }

    /// Records that every shard has been shut down.
    pub fn shutdown_complete(&mut self)
        ensures
            final(self).group_name == old(self).group_name,
            final(self).group_num == old(self).group_num,
            final(self).state == if old(self).state == GroupState::ShuttingDown { GroupState::Stopped } else { old(self).state },
    {
        if self.state == GroupState::ShuttingDown {
            self.state = GroupState::Stopped;
        }
    }

    pub fn is_stopped(&self) -> (r: bool)
        ensures
            r == self.stopped(),
    {
        self.state == GroupState::ShuttingDown || self.state == GroupState::Stopped
    }

    /// The shard index for routing key `key`.
    pub fn route_shard(&self, key: &str) -> (r: u32)
        requires
            self.wf(),
        ensures
            r == route_index(key@, self.group_num),
            r < self.group_num,
    {
        if key.is_empty() {
            0
        } else {
            (key_hash(key) % (self.group_num as u64)) as u32
        }
    }

    /// The name of shard `index`: `{group_name}_{index}`.
    pub fn shard_name(&self, index: u32) -> (r: String)
        ensures
            r@ == shard_name_spec(self.group_name@, index as nat),
    {
        shard_name(self.group_name.as_str(), index)
    }

    /// The names of all shards, in index order.
    pub fn shard_names(&self) -> (r: Vec<String>)
        ensures
            r@.len() == self.group_num,
            forall|i: int| 0 <= i < self.group_num ==> #[trigger] r@[i]@ == shard_name_spec(self.group_name@, i as nat),
    {
        let mut r: Vec<String> = Vec::new();
        let mut i: u32 = 0;
        while i < self.group_num
            invariant
                i <= self.group_num,
                r@.len() == i,
                forall|j: int| 0 <= j < i ==> #[trigger] r@[j]@ == shard_name_spec(self.group_name@, j as nat),
            decreases self.group_num - i,
        {
            r.push(self.shard_name(i));
            i += 1;
        }
        r
    }

    /// Decides where a write with routing key `key` goes: fails on a stopped
    /// group, else counts the request on the target shard and returns the shard
    /// and the timeout to apply.
    pub fn prepare_write(&self, reg: &mut MetricsRegistry, key: &str, configured_timeout_sec: u64) -> (r: Result<WritePlan, MetaServiceError>)
        requires
            self.wf(),
        ensures
            write_planned(*self, key@, configured_timeout_sec, *old(reg), *final(reg), r),
    {
        if self.is_stopped() {
            return Err(MetaServiceError::RaftNodeHasStopped(self.group_name.clone()));
        }
        let index = self.route_shard(key);
        let name = self.shard_name(index);
        record_write_request(reg, name.as_str());
        Ok(WritePlan { shard_index: index, shard_name: name, timeout_sec: raft_write_timeout_sec(configured_timeout_sec) })
    }

    /// Turns the outcome of a submitted write into its result, counting success
    /// or failure on the shard.
    pub fn finish_write(&self, reg: &mut MetricsRegistry, plan: &WritePlan, data_type: &str, outcome: WriteOutcome) -> (r: Result<(), MetaServiceError>)
        ensures
            match outcome {
                WriteOutcome::Applied => r is Ok
                    && final(reg).get("raft_write_success"@, seq![plan.shard_name@]) == Some(bumped(old(reg).get("raft_write_success"@, seq![plan.shard_name@])))
                    && final(reg).same_except(old(reg), "raft_write_success"@, seq![plan.shard_name@]),
                WriteOutcome::Failed(m) => r == Err::<(), MetaServiceError>(MetaServiceError::RaftWriteFailed(m))
                    && final(reg).get("raft_write_failures"@, seq![plan.shard_name@]) == Some(bumped(old(reg).get("raft_write_failures"@, seq![plan.shard_name@])))
                    && final(reg).same_except(old(reg), "raft_write_failures"@, seq![plan.shard_name@]),
                WriteOutcome::TimedOut => (match r {
                    Err(MetaServiceError::CommonError(msg)) => msg@ == timeout_message_spec(self.group_name@, plan.timeout_sec as nat, data_type@),
                    _ => false,
                })
                    && final(reg).get("raft_write_failures"@, seq![plan.shard_name@]) == Some(bumped(old(reg).get("raft_write_failures"@, seq![plan.shard_name@])))
                    && final(reg).same_except(old(reg), "raft_write_failures"@, seq![plan.shard_name@]),
            },
    {
        match outcome {
            WriteOutcome::Applied => {
                record_write_success(reg, plan.shard_name.as_str());
                Ok(())
            },
            WriteOutcome::Failed(m) => {
                record_write_failure(reg, plan.shard_name.as_str());
                Err(MetaServiceError::RaftWriteFailed(m))
            },
            WriteOutcome::TimedOut => {
                record_write_failure(reg, plan.shard_name.as_str());
                Err(MetaServiceError::CommonError(timeout_message(self.group_name.as_str(), plan.timeout_sec, data_type)))
            },
        }
    }
}

/// `i` is a shard of `g` and `name` is its name.
pub open spec fn is_shard_of(g: RaftGroup, name: Seq<char>, i: u32) -> bool {
    i < g.group_num && name == shard_name_spec(g.group_name@, i as nat)
}

/// `Unknown raft shard: {name}`
pub open spec fn unknown_shard_message(name: Seq<char>) -> Seq<char> {
    "Unknown raft shard: "@ + name
}

fn find_shard(g: &RaftGroup, name: &str) -> (r: Option<u32>)
    ensures
        match r {
            Some(i) => is_shard_of(*g, name@, i),
            None => forall|i: u32| !is_shard_of(*g, name@, i),
        },
{
    let mut i: u32 = 0;
    while i < g.group_num
        invariant
            i <= g.group_num,
            forall|j: u32| j < i ==> !is_shard_of(*g, name@, j),
        decreases g.group_num - i,
    {
        let candidate = g.shard_name(i);
        if text_eq(candidate.as_str(), name) {
            return Some(i);
        }
        i += 1;
    }
    None
}

/// The three Raft groups: `metadata` with one shard, `offset` and `data` with a
/// configured number each.
pub struct MultiRaftManager {
    pub metadata: RaftGroup,
    pub offset: RaftGroup,
    pub data: RaftGroup,
}

impl MultiRaftManager {
    pub open spec fn wf(&self) -> bool {
        &&& self.metadata.wf() && self.offset.wf() && self.data.wf()
        &&& self.metadata.group_num == 1
        &&& self.metadata.group_name@ == "metadata"@
        &&& self.offset.group_name@ == "offset"@
        &&& self.data.group_name@ == "data"@
    }

    pub open spec fn group_spec(&self, g: RaftStateMachineName) -> RaftGroup {
        match g {
            RaftStateMachineName::METADATA => self.metadata,
            RaftStateMachineName::OFFSET => self.offset,
            RaftStateMachineName::DATA => self.data,
        }
    }

    pub fn new(offset_raft_group_num: u32, data_raft_group_num: u32) -> (r: MultiRaftManager)
        ensures
            r.wf(),
            r.offset.group_num == if offset_raft_group_num >= 1 { offset_raft_group_num } else { 1 },
            r.data.group_num == if data_raft_group_num >= 1 { data_raft_group_num } else { 1 },
            r.metadata.state == GroupState::Starting && r.offset.state == GroupState::Starting
                && r.data.state == GroupState::Starting,
    {
        MultiRaftManager {
            metadata: RaftGroup::new("metadata", 1),
            offset: RaftGroup::new("offset", offset_raft_group_num),
            data: RaftGroup::new("data", data_raft_group_num),
        }
    }

    pub fn group(&self, g: RaftStateMachineName) -> (r: &RaftGroup)
        ensures
            *r == self.group_spec(g),
    {
        match g {
            RaftStateMachineName::METADATA => &self.metadata,
            RaftStateMachineName::OFFSET => &self.offset,
            RaftStateMachineName::DATA => &self.data,
        }
    }

    /// Plans a metadata write: the routing key is empty, so it goes to
    /// `metadata_0`.
    pub fn write_metadata(&self, reg: &mut MetricsRegistry, configured_timeout_sec: u64) -> (r: Result<WritePlan, MetaServiceError>)
        requires
            self.wf(),
        ensures
            write_planned(self.metadata, Seq::empty(), configured_timeout_sec, *old(reg), *final(reg), r),
            r matches Ok(plan) ==> plan.shard_index == 0 && plan.shard_name@ == shard_name_spec("metadata"@, 0),
    {
        proof {
            reveal_strlit("");
        }
        self.metadata.prepare_write(reg, "", configured_timeout_sec)
    }

    /// Plans a write to the `offset` group with routing key `key`.
    pub fn write_offset(&self, reg: &mut MetricsRegistry, key: &str, configured_timeout_sec: u64) -> (r: Result<WritePlan, MetaServiceError>)
        requires
            self.wf(),
        ensures
            write_planned(self.offset, key@, configured_timeout_sec, *old(reg), *final(reg), r),
    {
        self.offset.prepare_write(reg, key, configured_timeout_sec)
    }

    /// Plans a write to the `data` group with routing key `key`.
    pub fn write_data(&self, reg: &mut MetricsRegistry, key: &str, configured_timeout_sec: u64) -> (r: Result<WritePlan, MetaServiceError>)
        requires
            self.wf(),
        ensures
            write_planned(self.data, key@, configured_timeout_sec, *old(reg), *final(reg), r),
    {
        self.data.prepare_write(reg, key, configured_timeout_sec)
    }

    /// Resolves a shard by name; the aliases `metadata` / `meta` give
    /// `metadata_0` and `data` / `mqtt` give the data group's first shard,
    /// `data_0`.
    pub fn get_raft_node(&self, name: &str) -> (r: Result<(RaftStateMachineName, u32), MetaServiceError>)
        requires
            self.wf(),
        ensures
            match r {
                Ok((g, i)) => ((name@ == "metadata"@ || name@ == "meta"@) && g == RaftStateMachineName::METADATA && i == 0)
                    || ((name@ == "data"@ || name@ == "mqtt"@) && g == RaftStateMachineName::DATA && i == 0)
                    || is_shard_of(self.group_spec(g), name@, i),
                Err(e) => !(name@ == "metadata"@ || name@ == "meta"@ || name@ == "data"@ || name@ == "mqtt"@)
                    && (forall|g: RaftStateMachineName, i: u32| !#[trigger] is_shard_of(self.group_spec(g), name@, i))
                    && e == MetaServiceError::CommonError(e->CommonError_0)
                    && e->CommonError_0@ == unknown_shard_message(name@),
            },
    {
        if text_eq(name, "metadata") || text_eq(name, "meta") {
            return Ok((RaftStateMachineName::METADATA, 0));
        }
        if text_eq(name, "data") || text_eq(name, "mqtt") {
            return Ok((RaftStateMachineName::DATA, 0));
        }
        if let Some(i) = find_shard(&self.metadata, name) {
            return Ok((RaftStateMachineName::METADATA, i));
        }
        if let Some(i) = find_shard(&self.offset, name) {
            return Ok((RaftStateMachineName::OFFSET, i));
        }
        if let Some(i) = find_shard(&self.data, name) {
            return Ok((RaftStateMachineName::DATA, i));
        }
        let mut msg = String::from_str("Unknown raft shard: ");
        msg.append(name);
        proof {
            assert forall|g: RaftStateMachineName, i: u32| !#[trigger] is_shard_of(self.group_spec(g), name@, i) by {
                match g {
                    RaftStateMachineName::METADATA => {},
                    RaftStateMachineName::OFFSET => {},
                    RaftStateMachineName::DATA => {},
                }
            }
        }
        Err(MetaServiceError::CommonError(msg))
    }

    /// Every shard name: `metadata_0`, then the `offset` shards, then the `data`
    /// shards, each in index order.
    pub fn all_shard_names(&self) -> (r: Vec<String>)
        requires
            self.wf(),
        ensures
            r@.len() == 1 + self.offset.group_num + self.data.group_num,
            r@[0]@ == shard_name_spec("metadata"@, 0),
            forall|i: int| 0 <= i < self.offset.group_num ==> #[trigger] r@[1 + i]@ == shard_name_spec("offset"@, i as nat),
            forall|i: int| 0 <= i < self.data.group_num ==> #[trigger] r@[1 + self.offset.group_num + i]@ == shard_name_spec("data"@, i as nat),
    {
        let mut r = self.metadata.shard_names();
        let mut o = self.offset.shard_names();
        let mut d = self.data.shard_names();
        let ghost r0 = r@;
        let ghost o0 = o@;
        let ghost d0 = d@;
        r.append(&mut o);
        r.append(&mut d);
        assert(r@ == r0 + o0 + d0);
        assert forall|i: int| 0 <= i < self.offset.group_num implies #[trigger] r@[1 + i]@ == shard_name_spec("offset"@, i as nat) by {
            assert(r@[1 + i] == o0[i]);
        }
        assert forall|i: int| 0 <= i < self.data.group_num implies #[trigger] r@[1 + self.offset.group_num + i]@ == shard_name_spec("data"@, i as nat) by {
            assert(r@[1 + self.offset.group_num + i] == d0[i]);
        }
        r
    }

    /// Begins shutting down the three groups; returns those whose shards must
    /// now be shut down, `data` first and `metadata` last. Calling it again
    /// returns nothing.
    pub fn shutdown(&mut self) -> (r: Vec<RaftStateMachineName>)
        requires
            old(self).wf(),
        ensures
            final(self).wf(),
            final(self).metadata.stopped() && final(self).offset.stopped() && final(self).data.stopped(),
            r@ == Seq::<RaftStateMachineName>::empty()
                + (if old(self).data.stopped() { Seq::empty() } else { seq![RaftStateMachineName::DATA] })
                + (if old(self).offset.stopped() { Seq::empty() } else { seq![RaftStateMachineName::OFFSET] })
                + (if old(self).metadata.stopped() { Seq::empty() } else { seq![RaftStateMachineName::METADATA] }),
    {
        let mut r: Vec<RaftStateMachineName> = Vec::new();
        let ghost e = Seq::<RaftStateMachineName>::empty();
        if self.data.shutdown() {
            r.push(RaftStateMachineName::DATA);
        }
        let ghost r1 = r@;
        if self.offset.shutdown() {
            r.push(RaftStateMachineName::OFFSET);
        }
        let ghost r2 = r@;
        if self.metadata.shutdown() {
            r.push(RaftStateMachineName::METADATA);
        }
        assert(r@ =~= e
            + (if old(self).data.stopped() { Seq::empty() } else { seq![RaftStateMachineName::DATA] })
            + (if old(self).offset.stopped() { Seq::empty() } else { seq![RaftStateMachineName::OFFSET] })
            + (if old(self).metadata.stopped() { Seq::empty() } else { seq![RaftStateMachineName::METADATA] }));
        r
    }
}

/// The empty routing key always lands on shard 0, whatever the number of shards.
pub proof fn lemma_empty_key_routes_to_shard_zero(n: u32)
    ensures
        route_index(Seq::<char>::empty(), n) == 0,
{
}

} // verus!
