use vstd::prelude::*;
use crate::text::{copy_bytes, copy_strings, is_prefix, text_eq, text_starts_with};
use crate::keys::{
    key_index_key_spec, key_offset_key, offset_key_spec, record_key_spec, shard_offset_key,
    shard_record_key, tag_key_spec, tag_offsets_key, timestamp_key_spec, timestamp_offset_key,
};

verus! {

/// One header of a record.
#[derive(Debug)]
pub struct Header {
    pub name: String,
    pub value: String,
}

impl Header {
    pub fn duplicate(&self) -> (r: Header)
        ensures
            r == *self,
    {
        Header { name: self.name.clone(), value: self.value.clone() }
    }
}

pub fn copy_headers(v: &Vec<Header>) -> (r: Vec<Header>)
    ensures
        r@ == v@,
{
    let mut r: Vec<Header> = Vec::new();
    let mut i: usize = 0;
    while i < v.len()
        invariant
            i <= v@.len(),
            r@ == v@.subrange(0, i as int),
        decreases v@.len() - i,
    {
        r.push(v[i].duplicate());
        i += 1;
        assert(r@ =~= v@.subrange(0, i as int));
    }
    assert(r@ =~= v@);
    r
}

/// An entry of a shard's log. Immutable once written; `offset` is set by the store.
#[derive(Debug)]
pub struct Record {
    pub offset: Option<u64>,
    pub key: String,
    pub tags: Vec<String>,
    pub data: Vec<u8>,
    pub timestamp: u64,
    pub crc_num: u32,
    pub headers: Vec<Header>,
}

/// What a record holds, as mathematical values.
pub ghost struct RecordView {
    pub offset: Option<u64>,
    pub key: Seq<char>,
    pub tags: Seq<String>,
    pub data: Seq<u8>,
    pub timestamp: u64,
    pub crc_num: u32,
    pub headers: Seq<Header>,
}

impl View for Record {
    type V = RecordView;

    open spec fn view(&self) -> RecordView {
        RecordView {
            offset: self.offset,
            key: self.key@,
            tags: self.tags@,
            data: self.data@,
            timestamp: self.timestamp,
            crc_num: self.crc_num,
            headers: self.headers@,
        }
    }
}

impl RecordView {
    /// The same record carrying offset `o`.
    pub open spec fn with_offset(self, o: u64) -> RecordView {
        RecordView { offset: Some(o), ..self }
    }

    pub open spec fn has_tag(self, tag: Seq<char>) -> bool {
        exists|j: int| 0 <= j < self.tags.len() && #[trigger] self.tags[j]@ == tag
    }
}

impl Record {
    pub fn duplicate(&self) -> (r: Record)
        ensures
            r@ == self@,
    {
        Record {
            offset: self.offset,
            key: self.key.clone(),
            tags: copy_strings(&self.tags),
            data: copy_bytes(&self.data),
            timestamp: self.timestamp,
            crc_num: self.crc_num,
            headers: copy_headers(&self.headers),
        }
    }

    pub fn has_tag(&self, tag: &str) -> (r: bool)
        ensures
            r == self@.has_tag(tag@),
    {
        let mut j: usize = 0;
        while j < self.tags.len()
            invariant
                j <= self.tags@.len(),
                forall|k: int| 0 <= k < j ==> #[trigger] self.tags@[k]@ != tag@,
            decreases self.tags@.len() - j,
        {
            if text_eq(self.tags[j].as_str(), tag) {
                assert(self@.tags[j as int]@ == tag@);
                return true;
            }
            j += 1;
        }
        false
    }
}

/// Limits of a read: at most `max_record_num` records whose `data` lengths sum to
/// at most `max_size`.
#[derive(Clone, Copy, Debug)]
pub struct ReadConfig {
    pub max_record_num: u64,
    pub max_size: u64,
}

/// The number of leading records of `rs` that a read with these limits returns:
/// it stops at the first record that would exceed the count or the size budget.
pub open spec fn fit_count(rs: Seq<RecordView>, max_num: nat, budget: nat) -> nat
    decreases rs.len(),
{
    if rs.len() == 0 || max_num == 0 || rs[0].data.len() > budget {
        0
    } else {
        1 + fit_count(rs.drop_first(), (max_num - 1) as nat, (budget - rs[0].data.len()) as nat)
    }
}

pub proof fn lemma_fit_count_bound(rs: Seq<RecordView>, max_num: nat, budget: nat)
    ensures
        fit_count(rs, max_num, budget) <= rs.len(),
        fit_count(rs, max_num, budget) <= max_num,
    decreases rs.len(),
{
    if rs.len() > 0 && max_num > 0 && rs[0].data.len() <= budget {
        lemma_fit_count_bound(rs.drop_first(), (max_num - 1) as nat, (budget - rs[0].data.len()) as nat);
    }
}

/// The records of `rs` from `start`, as many as `fit_count` allows.
pub open spec fn fit_read(rs: Seq<RecordView>, start: int, max_num: nat, budget: nat) -> Seq<RecordView> {
    let tail = rs.subrange(start, rs.len() as int);
    tail.subrange(0, fit_count(tail, max_num, budget) as int)
}

/// Copies the records of `rs` from `start` on, stopping at the first that would
/// exceed `cfg`.
pub fn read_fitting(rs: &Vec<Record>, start: usize, cfg: ReadConfig) -> (r: Vec<Record>)
    requires
        start <= rs@.len(),
    ensures
        r@.map_values(|x: Record| x@) == fit_read(rs@.map_values(|x: Record| x@), start as int, cfg.max_record_num as nat, cfg.max_size as nat),
{
    let ghost all = rs@.map_values(|x: Record| x@);
    let ghost full = all.subrange(start as int, all.len() as int);
    let mut r: Vec<Record> = Vec::new();
    let mut i: usize = start;
    let mut left_num: u64 = cfg.max_record_num;
    let mut left_size: u64 = cfg.max_size;
    proof {
        lemma_fit_count_bound(full, cfg.max_record_num as nat, cfg.max_size as nat);
    }
    while i < rs.len() && left_num > 0 && (rs[i].data.len() as u64) <= left_size
        invariant
            start <= i <= rs@.len(),
            all == rs@.map_values(|x: Record| x@),
            full == all.subrange(start as int, all.len() as int),
            r@.map_values(|x: Record| x@) == all.subrange(start as int, i as int),
            fit_count(full, cfg.max_record_num as nat, cfg.max_size as nat) == (i - start) + fit_count(
                all.subrange(i as int, all.len() as int),
                left_num as nat,
                left_size as nat,
            ),
        decreases rs@.len() - i,
    {
        let ghost tail = all.subrange(i as int, all.len() as int);
        assert(tail[0] == all[i as int]);
        assert(tail.drop_first() =~= all.subrange(i + 1, all.len() as int));
        let len = rs[i].data.len() as u64;
        let ghost before = r@;
        let item = rs[i].duplicate();
        assert(item@ == all[i as int]);
        r.push(item);
        assert(r@ == before.push(item));
        assert(r@.map_values(|x: Record| x@) =~= before.map_values(|x: Record| x@).push(item@));
        left_num = left_num - 1;
        left_size = left_size - len;
        i += 1;
        assert(r@.map_values(|x: Record| x@) =~= all.subrange(start as int, i as int));
    }
    proof {
        let tail = all.subrange(i as int, all.len() as int);
        if i < rs@.len() {
            assert(tail[0] == all[i as int]);
        }
        assert(fit_count(tail, left_num as nat, left_size as nat) == 0);
        assert(all.subrange(start as int, i as int) =~= full.subrange(0, (i - start) as int));
    }
    r
}

/// The view of a list of records.
pub open spec fn views(rs: Seq<Record>) -> Seq<RecordView> {
    rs.map_values(|x: Record| x@)
}

/// `rs` with offsets `start, start + 1, ...` assigned in order.
pub open spec fn stamped(rs: Seq<RecordView>, start: nat) -> Seq<RecordView> {
    Seq::new(rs.len(), |j: int| rs[j].with_offset((start + j) as u64))
}

/// The records of `rs` that carry `tag`, in order.
pub open spec fn tagged(rs: Seq<RecordView>, tag: Seq<char>) -> Seq<RecordView>
    decreases rs.len(),
{
    if rs.len() == 0 {
        Seq::empty()
    } else if rs.last().has_tag(tag) {
        tagged(rs.drop_last(), tag).push(rs.last())
    } else {
        tagged(rs.drop_last(), tag)
    }
}

/// The position of the last record of `rs` whose key is `key`, or -1.
pub open spec fn latest_with_key(rs: Seq<RecordView>, key: Seq<char>) -> int
    decreases rs.len(),
{
    if rs.len() == 0 {
        -1
    } else if rs.last().key == key {
        rs.len() - 1
    } else {
        latest_with_key(rs.drop_last(), key)
    }
}

pub proof fn lemma_latest_with_key_range(rs: Seq<RecordView>, key: Seq<char>)
    ensures
        -1 <= latest_with_key(rs, key) < rs.len(),
        latest_with_key(rs, key) >= 0 ==> rs[latest_with_key(rs, key)].key == key,
    decreases rs.len(),
{
    if rs.len() > 0 && rs.last().key != key {
        lemma_latest_with_key_range(rs.drop_last(), key);
    }
}

/// The first position of `rs` whose timestamp is at least `ts`, if any.
pub open spec fn first_at_or_after(rs: Seq<RecordView>, ts: u64, i: int) -> bool {
    0 <= i < rs.len() && rs[i].timestamp >= ts && forall|j: int| 0 <= j < i ==> #[trigger] rs[j].timestamp < ts
}

/// Where a shard lives and how many replicas it asks for.
#[derive(Debug)]
pub struct ShardInfo {
    pub namespace: String,
    pub shard_name: String,
    pub replica_num: u32,
}

impl ShardInfo {
    pub fn duplicate(&self) -> (r: ShardInfo)
        ensures
            r == *self,
    {
        ShardInfo {
            namespace: self.namespace.clone(),
            shard_name: self.shard_name.clone(),
            replica_num: self.replica_num,
        }
    }
}

/// The append-only log of one shard. Record `i` carries offset `i`, and the next
/// offset to assign is the number of records.
pub struct ShardLog {
    pub info: ShardInfo,
    pub records: Vec<Record>,
}

impl ShardLog {
    pub open spec fn wf(&self) -> bool {
        forall|i: int| 0 <= i < self.records@.len() ==> #[trigger] self.records@[i].offset == Some(i as u64)
    }

    pub open spec fn log(&self) -> Seq<RecordView> {
        views(self.records@)
    }

    pub fn new(info: ShardInfo) -> (r: ShardLog)
        ensures
            r.wf(),
            r.info == info,
            r.log() == Seq::<RecordView>::empty(),
    {
        let r = ShardLog { info, records: Vec::new() };
        assert(r.log() =~= Seq::<RecordView>::empty());
        r
    }

    /// The offset that the next appended record gets.
    pub fn next_offset(&self) -> (r: u64)
        ensures
            r == self.records@.len(),
    {
        self.records.len() as u64
    }

    /// Appends `batch` in order with dense offsets that continue the log, and
    /// returns those offsets.
    pub fn append(&mut self, batch: Vec<Record>) -> (r: Vec<u64>)
        requires
            old(self).wf(),
        ensures
            final(self).wf(),
            final(self).info == old(self).info,
            final(self).log() == old(self).log() + stamped(views(batch@), old(self).records@.len()),
            r@ == Seq::new(batch@.len(), |j: int| (old(self).records@.len() + j) as u64),
    {
        let ghost start = self.records@.len();
        let ghost old_log = self.log();
        let mut offsets: Vec<u64> = Vec::new();
        let mut batch = batch;
        let ghost input = views(batch@);
        let ghost n = batch@.len();
        assert(input.len() == n);
        while batch.len() > 0
            invariant
                input.len() == n,
                self.wf(),
                self.info == old(self).info,
                self.records@.len() == start + offsets@.len(),
                offsets@.len() + batch@.len() == n,
                views(batch@) == input.subrange(offsets@.len() as int, n as int),
                self.log() == old_log + stamped(input.subrange(0, offsets@.len() as int), start),
                offsets@ == Seq::new(offsets@.len(), |j: int| (start + j) as u64),
            decreases batch@.len(),
        {
            let ghost b = batch@;
            let ghost k: int = offsets@.len() as int;
            let ghost before = self.records@;
            let mut x = batch.remove(0);
            assert(x@ == views(b)[0]);
            assert(x@ == input[k]);
            assert(batch@ =~= b.subrange(1, b.len() as int));
            assert(views(batch@) =~= views(b).subrange(1, b.len() as int));
            assert(views(batch@) =~= input.subrange(k + 1, n as int));
            let o = self.records.len() as u64;
            x.offset = Some(o);
            self.records.push(x);
            offsets.push(o);
            assert(self.log() =~= views(before).push(x@));
            assert(stamped(input.subrange(0, k + 1), start) =~= stamped(input.subrange(0, k), start).push(input[k].with_offset(o)));
            assert(self.log() =~= old_log + stamped(input.subrange(0, offsets@.len() as int), start));
            assert(offsets@ =~= Seq::new(offsets@.len(), |j: int| (start + j) as u64));
        }
        assert(input.subrange(0, n as int) =~= input);
        offsets
    }

    /// Records from `offset` on, within the limits of `cfg`.
    pub fn read_by_offset(&self, offset: u64, cfg: ReadConfig) -> (r: Vec<Record>)
        ensures
            offset >= self.records@.len() ==> r@.len() == 0,
            offset < self.records@.len() ==> views(r@) == fit_read(self.log(), offset as int, cfg.max_record_num as nat, cfg.max_size as nat),
    {
        if offset >= self.records.len() as u64 {
            return Vec::new();
        }
        read_fitting(&self.records, offset as usize, cfg)
    }

    /// Records from `offset` on that carry `tag`, within the limits of `cfg`.
    pub fn read_by_tag(&self, offset: u64, tag: &str, cfg: ReadConfig) -> (r: Vec<Record>)
        ensures
            offset >= self.records@.len() ==> r@.len() == 0,
            offset < self.records@.len() ==> views(r@) == fit_read(
                tagged(self.log().subrange(offset as int, self.log().len() as int), tag@),
                0,
                cfg.max_record_num as nat,
                cfg.max_size as nat,
            ),
    {
        if offset >= self.records.len() as u64 {
            return Vec::new();
        }
        let ghost all = self.log();
        let start = offset as usize;
        let mut hits: Vec<Record> = Vec::new();
        let mut i: usize = start;
        while i < self.records.len()
            invariant
                start <= i <= self.records@.len(),
                all == self.log(),
                views(hits@) == tagged(all.subrange(start as int, i as int), tag@),
            decreases self.records@.len() - i,
        {
            let ghost h = hits@;
            let ghost seen = all.subrange(start as int, i as int);
            assert(all.subrange(start as int, i + 1).drop_last() =~= seen);
            assert(all.subrange(start as int, i + 1).last() == all[i as int]);
            if self.records[i].has_tag(tag) {
                let item = self.records[i].duplicate();
                hits.push(item);
                assert(views(hits@) =~= views(h).push(item@));
            }
            i += 1;
        }
        let r = read_fitting(&hits, 0, cfg);
        r
    }

    /// The latest record whose key is `key`, when its offset is at least `offset`
    /// and it fits in `cfg`. An empty key is never indexed.
    pub fn read_by_key(&self, offset: u64, key: &str, cfg: ReadConfig) -> (r: Vec<Record>)
        ensures
            ({
                let p = latest_with_key(self.log(), key@);
                if key@.len() > 0 && p >= offset && cfg.max_record_num >= 1
                    && self.log()[p].data.len() <= cfg.max_size {
                    views(r@) == seq![self.log()[p]]
                } else {
                    r@.len() == 0
                }
            }),
    {
        let ghost all = self.log();
        proof {
            lemma_latest_with_key_range(all, key@);
        }
        if key.is_empty() {
            return Vec::new();
        }
        let mut i: usize = self.records.len();
        let ghost p = latest_with_key(all, key@);
        assert(all.subrange(0, i as int) =~= all);
        while i > 0
            invariant
                i <= self.records@.len(),
                key@.len() > 0,
                all == self.log(),
                p == latest_with_key(all, key@),
                p == latest_with_key(all.subrange(0, i as int), key@),
            decreases i,
        {
            let ghost pre = all.subrange(0, i as int);
            assert(pre.last() == all[i - 1]);
            if text_eq(self.records[i - 1].key.as_str(), key) {
                assert(p == i - 1);
                if (i - 1) as u64 >= offset && cfg.max_record_num >= 1
                    && self.records[i - 1].data.len() as u64 <= cfg.max_size {
                    let mut r: Vec<Record> = Vec::new();
                    let item = self.records[i - 1].duplicate();
                    assert(item@ == all[i - 1]);
                    r.push(item);
                    assert(views(r@) =~= seq![item@]);
                    return r;
                }
                return Vec::new();
            }
            assert(pre.drop_last() =~= all.subrange(0, i - 1));
            i -= 1;
        }
        Vec::new()
    }

    /// The smallest offset whose timestamp is at least `ts`.
    pub fn offset_by_timestamp(&self, ts: u64) -> (r: Option<u64>)
        ensures
            match r {
                Some(o) => first_at_or_after(self.log(), ts, o as int),
                None => forall|j: int| 0 <= j < self.log().len() ==> #[trigger] self.log()[j].timestamp < ts,
            },
    {
        let mut i: usize = 0;
        while i < self.records.len()
            invariant
                i <= self.records@.len(),
                forall|j: int| 0 <= j < i ==> #[trigger] self.log()[j].timestamp < ts,
            decreases self.records@.len() - i,
        {
            if self.records[i].timestamp >= ts {
                return Some(i as u64);
            }
            i += 1;
        }
        None
    }
}

/// The column family that holds the storage adapter's keys.
pub const DB_COLUMN_FAMILY: &'static str = "db";

/// The column families the storage adapter opens.
pub fn column_family_list() -> (r: Vec<String>)
    ensures
        r@.len() == 1,
        r@[0]@ == DB_COLUMN_FAMILY@,
{
    let mut r: Vec<String> = Vec::new();
    r.push(String::from_str(DB_COLUMN_FAMILY));
    r
}

/// Failures of the storage adapter.
#[derive(Debug, PartialEq, Eq, Structural)]
pub enum StorageError {
    /// `create_shard` on a shard that exists.
    ShardAlreadyExists,
    /// An operation on a shard that does not exist.
    ShardNotFound,
}

/// A position in a shard.
#[derive(Debug)]
pub struct ShardOffset {
    pub namespace: String,
    pub shard_name: String,
    pub offset: u64,
}

/// The infos of the shards of `s` in namespace `ns` whose name starts with
/// `name`, in order.
pub open spec fn listed(s: Seq<ShardLog>, ns: Seq<char>, name: Seq<char>) -> Seq<ShardInfo>
    decreases s.len(),
{
    if s.len() == 0 {
        Seq::empty()
    } else if s.last().info.namespace@ == ns && is_prefix(name, s.last().info.shard_name@) {
        listed(s.drop_last(), ns, name).push(s.last().info)
    } else {
        listed(s.drop_last(), ns, name)
    }
}

pub open spec fn is_shard(s: ShardLog, ns: Seq<char>, name: Seq<char>) -> bool {
    s.info.namespace@ == ns && s.info.shard_name@ == name
}

pub open spec fn same_shard(a: ShardLog, b: ShardLog) -> bool {
    is_shard(a, b.info.namespace@, b.info.shard_name@)
}

/// A topic-scoped append log: shards, each a dense log of records, and the
/// offsets that consumer groups committed.
pub struct MemoryStorageAdapter {
    pub shards: Vec<ShardLog>,
    pub group_offsets: Vec<GroupOffset>,
}

/// The committed offset of `group` on one shard.
#[derive(Debug)]
pub struct GroupOffset {
    pub group: String,
    pub namespace: String,
    pub shard_name: String,
    pub offset: u64,
}

pub open spec fn is_group_key(e: GroupOffset, group: Seq<char>, ns: Seq<char>, shard: Seq<char>) -> bool {
    e.group@ == group && e.namespace@ == ns && e.shard_name@ == shard
}

/// The offset committed by `group` on shard `(ns, shard)` (the latest entry), if any.
pub open spec fn committed_of(s: Seq<GroupOffset>, group: Seq<char>, ns: Seq<char>, shard: Seq<char>) -> Option<u64>
    decreases s.len(),
{
    if s.len() == 0 {
        None
    } else if is_group_key(s.last(), group, ns, shard) {
        Some(s.last().offset)
    } else {
        committed_of(s.drop_last(), group, ns, shard)
    }
}

/// `s` without the entries for `(group, ns, shard)`.
pub open spec fn without_group_key(s: Seq<GroupOffset>, group: Seq<char>, ns: Seq<char>, shard: Seq<char>) -> Seq<GroupOffset>
    decreases s.len(),
{
    if s.len() == 0 {
        Seq::empty()
    } else if is_group_key(s.last(), group, ns, shard) {
        without_group_key(s.drop_last(), group, ns, shard)
    } else {
        without_group_key(s.drop_last(), group, ns, shard).push(s.last())
    }
}

proof fn lemma_without_group_key(s: Seq<GroupOffset>, g: Seq<char>, ns: Seq<char>, sh: Seq<char>, g2: Seq<char>, ns2: Seq<char>, sh2: Seq<char>)
    ensures
        !(g2 == g && ns2 == ns && sh2 == sh) ==> committed_of(without_group_key(s, g, ns, sh), g2, ns2, sh2) == committed_of(s, g2, ns2, sh2),
    decreases s.len(),
{
    if s.len() > 0 {
        lemma_without_group_key(s.drop_last(), g, ns, sh, g2, ns2, sh2);
        let w = without_group_key(s.drop_last(), g, ns, sh);
        if !is_group_key(s.last(), g, ns, sh) {
            assert(w.push(s.last()).drop_last() =~= w);
        }
    }
}

/// The committed offset of `shard` after committing `offs` in order on top of
/// `c`: each commit keeps the larger offset.
pub open spec fn max_commit(c: Option<u64>, offs: Seq<(String, u64)>, shard: Seq<char>) -> Option<u64>
    decreases offs.len(),
{
    if offs.len() == 0 {
        c
    } else {
        let prev = max_commit(c, offs.drop_last(), shard);
        if offs.last().0@ == shard {
            Some(
                match prev {
                    Some(o) => if o >= offs.last().1 { o } else { offs.last().1 },
                    None => offs.last().1,
                },
            )
        } else {
            prev
        }
    }
}

pub open spec fn same_group_key(a: GroupOffset, b: GroupOffset) -> bool {
    is_group_key(a, b.group@, b.namespace@, b.shard_name@)
}

/// No two entries of `s` are for the same group and shard.
pub open spec fn unique_group_keys(s: Seq<GroupOffset>) -> bool {
    forall|i: int, j: int| 0 <= i < j < s.len() ==> !same_group_key(#[trigger] s[i], #[trigger] s[j])
}

proof fn lemma_unique_drop_last(s: Seq<GroupOffset>)
    requires
        unique_group_keys(s),
        s.len() > 0,
    ensures
        unique_group_keys(s.drop_last()),
{
    assert forall|i: int, j: int| 0 <= i < j < s.len() - 1 implies !same_group_key(#[trigger] s.drop_last()[i], #[trigger] s.drop_last()[j]) by {
        assert(s.drop_last()[i] == s[i] && s.drop_last()[j] == s[j]);
    }
}

/// With unique keys, an entry's offset is the committed offset of its key.
proof fn lemma_committed_at(s: Seq<GroupOffset>, i: int)
    requires
        unique_group_keys(s),
        0 <= i < s.len(),
    ensures
        committed_of(s, s[i].group@, s[i].namespace@, s[i].shard_name@) == Some(s[i].offset),
    decreases s.len(),
{
    if i < s.len() - 1 {
        assert(s.last() == s[s.len() - 1]);
        assert(!same_group_key(s[i], s[s.len() - 1]));
        lemma_unique_drop_last(s);
        assert(s.drop_last()[i] == s[i]);
        lemma_committed_at(s.drop_last(), i);
    }
}

/// A committed offset comes from an entry of its key.
proof fn lemma_committed_some(s: Seq<GroupOffset>, g: Seq<char>, n: Seq<char>, sh: Seq<char>)
    ensures
        committed_of(s, g, n, sh) matches Some(o) ==> exists|i: int| 0 <= i < s.len() && is_group_key(#[trigger] s[i], g, n, sh) && s[i].offset == o,
    decreases s.len(),
{
    if s.len() > 0 {
        lemma_committed_some(s.drop_last(), g, n, sh);
        if is_group_key(s.last(), g, n, sh) {
            assert(s[s.len() - 1] == s.last());
        } else if committed_of(s, g, n, sh) is Some {
            let i = choose|i: int| 0 <= i < s.len() - 1 && is_group_key(#[trigger] s.drop_last()[i], g, n, sh) && s.drop_last()[i].offset == committed_of(s, g, n, sh)->Some_0;
            assert(s[i] == s.drop_last()[i]);
        }
    }
}

/// The entries left after removing a key come from `s`, none has that key, and
/// their keys stay unique.
proof fn lemma_without_group_key_unique(s: Seq<GroupOffset>, g: Seq<char>, n: Seq<char>, sh: Seq<char>)
    requires
        unique_group_keys(s),
    ensures
        unique_group_keys(without_group_key(s, g, n, sh)),
        forall|j: int| 0 <= j < without_group_key(s, g, n, sh).len() ==> !is_group_key(#[trigger] without_group_key(s, g, n, sh)[j], g, n, sh),
        forall|j: int| 0 <= j < without_group_key(s, g, n, sh).len() ==> exists|i: int| 0 <= i < s.len() && #[trigger] without_group_key(s, g, n, sh)[j] == s[i],
    decreases s.len(),
{
    if s.len() > 0 {
        lemma_unique_drop_last(s);
        lemma_without_group_key_unique(s.drop_last(), g, n, sh);
        let w = without_group_key(s.drop_last(), g, n, sh);
        if !is_group_key(s.last(), g, n, sh) {
            let w2 = w.push(s.last());
            assert forall|a: int, b: int| 0 <= a < b < w2.len() implies !same_group_key(#[trigger] w2[a], #[trigger] w2[b]) by {
                if b == w.len() {
                    assert(w2[a] == w[a]);
                    let i = choose|i: int| 0 <= i < s.len() - 1 && #[trigger] w[a] == s.drop_last()[i];
                    assert(s.drop_last()[i] == s[i]);
                    assert(!same_group_key(s[i], s[s.len() - 1]));
                } else {
                    assert(w2[a] == w[a] && w2[b] == w[b]);
                }
            }
            assert forall|j: int| 0 <= j < w2.len() implies !is_group_key(#[trigger] w2[j], g, n, sh) by {
                if j < w.len() {
                    assert(w2[j] == w[j]);
                }
            }
            assert forall|j: int| 0 <= j < w2.len() implies exists|i: int| 0 <= i < s.len() && #[trigger] w2[j] == s[i] by {
                if j < w.len() {
                    assert(w2[j] == w[j]);
                    let i = choose|i: int| 0 <= i < s.len() - 1 && #[trigger] w[j] == s.drop_last()[i];
                    assert(s.drop_last()[i] == s[i]);
                } else {
                    assert(w2[j] == s[s.len() - 1]);
                }
            }
        } else {
            assert forall|j: int| 0 <= j < w.len() implies exists|i: int| 0 <= i < s.len() && #[trigger] w[j] == s[i] by {
                let i = choose|i: int| 0 <= i < s.len() - 1 && #[trigger] w[j] == s.drop_last()[i];
                assert(s.drop_last()[i] == s[i]);
            }
        }
    }
}

/// Entries of `group_entries(s, g)` come from `s` and belong to `g`.
proof fn lemma_group_entries_from(s: Seq<GroupOffset>, g: Seq<char>)
    ensures
        forall|j: int| 0 <= j < group_entries(s, g).len() ==> exists|i: int| 0 <= i < s.len() && #[trigger] group_entries(s, g)[j] == s[i] && s[i].group@ == g,
    decreases s.len(),
{
    if s.len() > 0 {
        let t = s.drop_last();
        lemma_group_entries_from(t, g);
        let e = group_entries(t, g);
        let e2 = group_entries(s, g);
        assert forall|j: int| 0 <= j < e2.len() implies exists|i: int| 0 <= i < s.len() && #[trigger] e2[j] == s[i] && s[i].group@ == g by {
            if j < e.len() {
                assert(e2[j] == e[j]);
                let i = choose|i: int| 0 <= i < t.len() && #[trigger] e[j] == t[i] && t[i].group@ == g;
                assert(t[i] == s[i]);
            } else {
                assert(e2[j] == s[s.len() - 1]);
            }
        }
    }
}

/// Every entry of `s` that belongs to `g` is among `group_entries(s, g)`.
#[verifier::rlimit(50)]
proof fn lemma_group_entries_complete(s: Seq<GroupOffset>, g: Seq<char>, i: int)
    requires
        0 <= i < s.len(),
        s[i].group@ == g,
    ensures
        exists|j: int| 0 <= j < group_entries(s, g).len() && group_entries(s, g)[j] == s[i],
    decreases s.len(),
{
    let t = s.drop_last();
    let e = group_entries(t, g);
    if i < s.len() - 1 {
        assert(t[i] == s[i]);
        lemma_group_entries_complete(t, g, i);
        let j = choose|j: int| 0 <= j < e.len() && e[j] == t[i];
        if s.last().group@ == g {
            assert(group_entries(s, g) == e.push(s.last()));
            assert(group_entries(s, g)[j] == e[j]);
        } else {
            assert(group_entries(s, g) == e);
        }
        assert(0 <= j < group_entries(s, g).len() && group_entries(s, g)[j] == s[i]);
    } else {
        assert(s.last() == s[i]);
        assert(group_entries(s, g) == e.push(s.last()));
        assert(group_entries(s, g)[e.len() as int] == s[i]);
    }
}

/// The entries of `s` that belong to `group`, in order.
pub open spec fn group_entries(s: Seq<GroupOffset>, group: Seq<char>) -> Seq<GroupOffset>
    decreases s.len(),
{
    if s.len() == 0 {
        Seq::empty()
    } else if s.last().group@ == group {
        group_entries(s.drop_last(), group).push(s.last())
    } else {
        group_entries(s.drop_last(), group)
    }
}

impl MemoryStorageAdapter {
    pub open spec fn wf(&self) -> bool {
        &&& forall|i: int| 0 <= i < self.shards@.len() ==> #[trigger] self.shards@[i].wf()
        &&& forall|i: int, j: int|
            0 <= i < j < self.shards@.len() ==> !same_shard(#[trigger] self.shards@[i], #[trigger] self.shards@[j])
        &&& unique_group_keys(self.group_offsets@)
    }

    pub open spec fn has_shard(&self, ns: Seq<char>, name: Seq<char>) -> bool {
        exists|i: int| 0 <= i < self.shards@.len() && is_shard(#[trigger] self.shards@[i], ns, name)
    }

    /// The position of the shard named `(ns, name)`, when it exists.
    pub open spec fn pos(&self, ns: Seq<char>, name: Seq<char>) -> int {
        choose|i: int| 0 <= i < self.shards@.len() && is_shard(#[trigger] self.shards@[i], ns, name)
    }

    /// The log of shard `(ns, name)`.
    pub open spec fn log_of(&self, ns: Seq<char>, name: Seq<char>) -> Seq<RecordView> {
        self.shards@[self.pos(ns, name)].log()
    }

    /// Every shard but `(ns, name)` is as in `other`, at the same position.
    pub open spec fn others_same(&self, other: &Self, ns: Seq<char>, name: Seq<char>) -> bool {
        &&& self.shards@.len() == other.shards@.len()
        &&& forall|j: int|
            0 <= j < self.shards@.len() && !is_shard(other.shards@[j], ns, name) ==> #[trigger] self.shards@[j]
                == other.shards@[j]
    }

    pub fn new() -> (r: MemoryStorageAdapter)
        ensures
            r.wf(),
            r.shards@.len() == 0,
            r.group_offsets@.len() == 0,
    {
        MemoryStorageAdapter { shards: Vec::new(), group_offsets: Vec::new() }
    }

    /// The position of shard `(ns, name)`.
    pub fn find(&self, ns: &str, name: &str) -> (r: Option<usize>)
        requires
            self.wf(),
        ensures
            match r {
                Some(i) => i < self.shards@.len() && is_shard(self.shards@[i as int], ns@, name@)
                    && self.has_shard(ns@, name@) && i == self.pos(ns@, name@),
                None => !self.has_shard(ns@, name@),
            },
    {
        let mut i: usize = 0;
        while i < self.shards.len()
            invariant
                i <= self.shards@.len(),
                self.wf(),
                forall|j: int| 0 <= j < i ==> !is_shard(#[trigger] self.shards@[j], ns@, name@),
            decreases self.shards@.len() - i,
        {
            if text_eq(self.shards[i].info.namespace.as_str(), ns) && text_eq(
                self.shards[i].info.shard_name.as_str(),
                name,
            ) {
                proof {
                    let p = self.pos(ns@, name@);
                    assert(is_shard(self.shards@[p], ns@, name@));
                    if p != i {
                        if p < i {
                            assert(!same_shard(self.shards@[p], self.shards@[i as int]));
                        } else {
                            assert(!same_shard(self.shards@[i as int], self.shards@[p]));
                        }
                    }
                }
                return Some(i);
            }
            i += 1;
        }
        None
    }

    /// Creates an empty shard; fails if one with the same namespace and name exists.
    pub fn create_shard(&mut self, info: ShardInfo) -> (r: Result<(), StorageError>)
        requires
            old(self).wf(),
        ensures
            final(self).wf(),
            final(self).group_offsets == old(self).group_offsets,
            old(self).has_shard(info.namespace@, info.shard_name@) ==> r == Err::<(), StorageError>(StorageError::ShardAlreadyExists)
                && *final(self) == *old(self),
            !old(self).has_shard(info.namespace@, info.shard_name@) ==> r is Ok
                && final(self).shards@.len() == old(self).shards@.len() + 1
                && final(self).shards@.subrange(0, old(self).shards@.len() as int) == old(self).shards@
                && final(self).shards@.last().info == info
                && final(self).shards@.last().log().len() == 0,
    {
        match self.find(info.namespace.as_str(), info.shard_name.as_str()) {
            Some(_) => Err(StorageError::ShardAlreadyExists),
            None => {
                let ghost old_shards = self.shards@;
                let ghost ns = info.namespace@;
                let ghost name = info.shard_name@;
                self.shards.push(ShardLog::new(info));
                assert(self.shards@.subrange(0, old_shards.len() as int) =~= old_shards);
                assert forall|i: int, j: int|
                    0 <= i < j < self.shards@.len() implies !same_shard(#[trigger] self.shards@[i], #[trigger] self.shards@[j]) by {
                    if j == old_shards.len() {
                        assert(!is_shard(old_shards[i], ns, name));
                    }
                }
                Ok(())
            }
        }
    }

    /// Removes a shard with all its records and indexes.
    pub fn delete_shard(&mut self, ns: &str, name: &str) -> (r: Result<(), StorageError>)
        requires
            old(self).wf(),
        ensures
            final(self).wf(),
            final(self).group_offsets == old(self).group_offsets,
            r is Ok <==> old(self).has_shard(ns@, name@),
            r is Err ==> r == Err::<(), StorageError>(StorageError::ShardNotFound) && *final(self) == *old(self),
            r is Ok ==> !final(self).has_shard(ns@, name@)
                && final(self).shards@ == old(self).shards@.remove(old(self).pos(ns@, name@)),
    {
        match self.find(ns, name) {
            None => Err(StorageError::ShardNotFound),
            Some(i) => {
                let ghost old_shards = self.shards@;
                self.shards.remove(i);
                assert forall|a: int, b: int|
                    0 <= a < b < self.shards@.len() implies !same_shard(#[trigger] self.shards@[a], #[trigger] self.shards@[b]) by {
                    let oa = if a < i { a } else { a + 1 };
                    let ob = if b < i { b } else { b + 1 };
                    assert(self.shards@[a] == old_shards[oa]);
                    assert(self.shards@[b] == old_shards[ob]);
                }
                assert forall|j: int| 0 <= j < self.shards@.len() implies !is_shard(#[trigger] self.shards@[j], ns@, name@) by {
                    let oj = if j < i { j } else { j + 1 };
                    assert(self.shards@[j] == old_shards[oj]);
                    if oj < i {
                        assert(!same_shard(old_shards[oj], old_shards[i as int]));
                    } else {
                        assert(!same_shard(old_shards[i as int], old_shards[oj]));
                    }
                }
                Ok(())
            }
        }
    }

    /// The infos of the shards whose `/shard/{ns}/{name}` key starts with
    /// `/shard/{ns}/{name}` of the query: all shards when `ns` is empty, else the
    /// shards of namespace `ns` whose name starts with `name`, in order.
    pub fn list_shard(&self, ns: &str, name: &str) -> (r: Vec<ShardInfo>)
        requires
            self.wf(),
        ensures
            ns@.len() == 0 ==> r@ == self.shards@.map_values(|s: ShardLog| s.info),
            ns@.len() > 0 ==> r@ == listed(self.shards@, ns@, name@),
    {
        let mut r: Vec<ShardInfo> = Vec::new();
        if ns.is_empty() {
            let mut i: usize = 0;
            while i < self.shards.len()
                invariant
                    i <= self.shards@.len(),
                    r@ == self.shards@.subrange(0, i as int).map_values(|s: ShardLog| s.info),
                decreases self.shards@.len() - i,
            {
                r.push(self.shards[i].info.duplicate());
                i += 1;
                assert(r@ =~= self.shards@.subrange(0, i as int).map_values(|s: ShardLog| s.info));
            }
            assert(self.shards@.subrange(0, i as int) =~= self.shards@);
            return r;
        }
        let mut i: usize = 0;
        assert(self.shards@.subrange(0, 0) =~= Seq::<ShardLog>::empty());
        while i < self.shards.len()
            invariant
                i <= self.shards@.len(),
                r@ == listed(self.shards@.subrange(0, i as int), ns@, name@),
            decreases self.shards@.len() - i,
        {
            let ghost pre = self.shards@.subrange(0, i + 1);
            assert(pre.drop_last() =~= self.shards@.subrange(0, i as int));
            assert(pre.last() == self.shards@[i as int]);
            let info = &self.shards[i].info;
            if text_eq(info.namespace.as_str(), ns) && text_starts_with(info.shard_name.as_str(), name) {
                r.push(info.duplicate());
            }
            i += 1;
        }
        assert(self.shards@.subrange(0, i as int) =~= self.shards@);
        r
    }

    /// Appends `records` to shard `(ns, name)` with dense offsets that continue its
    /// log, and returns those offsets.
    pub fn batch_write(&mut self, ns: &str, name: &str, records: Vec<Record>) -> (r: Result<Vec<u64>, StorageError>)
        requires
            old(self).wf(),
        ensures
            final(self).wf(),
            final(self).group_offsets == old(self).group_offsets,
            r is Ok <==> old(self).has_shard(ns@, name@),
            r is Err ==> r == Err::<Vec<u64>, StorageError>(StorageError::ShardNotFound) && *final(self) == *old(self),
            r is Ok ==> {
                let p = old(self).pos(ns@, name@);
                let n = old(self).log_of(ns@, name@).len();
                &&& final(self).has_shard(ns@, name@)
                &&& final(self).pos(ns@, name@) == p
                &&& final(self).others_same(old(self), ns@, name@)
                &&& final(self).shards@[p].info == old(self).shards@[p].info
                &&& final(self).log_of(ns@, name@) == old(self).log_of(ns@, name@) + stamped(views(records@), n)
                &&& r->Ok_0@ == Seq::new(records@.len(), |j: int| (n + j) as u64)
            },
    {
        match self.find(ns, name) {
            None => Err(StorageError::ShardNotFound),
            Some(i) => {
                let ghost old_self = *self;
                let offsets = self.shards[i].append(records);
                proof {
                    assert(is_shard(self.shards@[i as int], ns@, name@));
                    assert(self.has_shard(ns@, name@));
                    let q = self.pos(ns@, name@);
                    if q != i {
                        assert(self.shards@[q] == old_self.shards@[q]);
                        if q < i {
                            assert(!same_shard(old_self.shards@[q], old_self.shards@[i as int]));
                        } else {
                            assert(!same_shard(old_self.shards@[i as int], old_self.shards@[q]));
                        }
                    }
                    assert forall|a: int, b: int|
                        0 <= a < b < self.shards@.len() implies !same_shard(#[trigger] self.shards@[a], #[trigger] self.shards@[b]) by {
                        assert(!same_shard(old_self.shards@[a], old_self.shards@[b]));
                    }
                    assert forall|j: int|
                        0 <= j < self.shards@.len() && !is_shard(old_self.shards@[j], ns@, name@) implies #[trigger] self.shards@[j]
                            == old_self.shards@[j] by {
                        if j == i {
                            assert(is_shard(old_self.shards@[j], ns@, name@));
                        }
                    }
                }
                Ok(offsets)
            }
        }
    }

    /// Appends one record; returns its offset.
    pub fn write(&mut self, ns: &str, name: &str, record: Record) -> (r: Result<u64, StorageError>)
        requires
            old(self).wf(),
        ensures
            final(self).wf(),
            r is Ok <==> old(self).has_shard(ns@, name@),
            r is Err ==> r == Err::<u64, StorageError>(StorageError::ShardNotFound) && *final(self) == *old(self),
            r is Ok ==> {
                &&& final(self).others_same(old(self), ns@, name@)
                &&& final(self).log_of(ns@, name@) == old(self).log_of(ns@, name@).push(record@.with_offset(r->Ok_0))
                &&& r->Ok_0 == old(self).log_of(ns@, name@).len()
            },
    {
        let ghost rv = record@;
        let mut batch: Vec<Record> = Vec::new();
        batch.push(record);
        let ghost n = self.log_of(ns@, name@).len();
        let ghost old_log = self.log_of(ns@, name@);
        assert(views(batch@) =~= seq![rv]);
        proof {
            let p = self.pos(ns@, name@);
            assert(self.shards@[p].records.len() == self.shards@[p].records@.len());
        }
        match self.batch_write(ns, name, batch) {
            Ok(offsets) => {
                assert(stamped(seq![rv], n) =~= seq![rv.with_offset(n as u64)]);
                assert(offsets@[0] == n as u64);
                assert(old_log + seq![rv.with_offset(n as u64)] =~= old_log.push(rv.with_offset(n as u64)));
                Ok(offsets[0])
            },
            Err(e) => Err(e),
        }
    }

    /// Records of shard `(ns, name)` from `offset` on, within `cfg`.
    pub fn read_by_offset(&self, ns: &str, name: &str, offset: u64, cfg: ReadConfig) -> (r: Result<Vec<Record>, StorageError>)
        requires
            self.wf(),
        ensures
            r is Ok <==> self.has_shard(ns@, name@),
            r is Err ==> r == Err::<Vec<Record>, StorageError>(StorageError::ShardNotFound),
            r is Ok ==> {
                let log = self.log_of(ns@, name@);
                &&& offset >= log.len() ==> r->Ok_0@.len() == 0
                &&& offset < log.len() ==> views(r->Ok_0@) == fit_read(log, offset as int, cfg.max_record_num as nat, cfg.max_size as nat)
            },
    {
        match self.find(ns, name) {
            None => Err(StorageError::ShardNotFound),
            Some(i) => Ok(self.shards[i].read_by_offset(offset, cfg)),
        }
    }

    /// Records of shard `(ns, name)` from `offset` on that carry `tag`, within `cfg`.
    pub fn read_by_tag(&self, ns: &str, name: &str, offset: u64, tag: &str, cfg: ReadConfig) -> (r: Result<Vec<Record>, StorageError>)
        requires
            self.wf(),
        ensures
            r is Ok <==> self.has_shard(ns@, name@),
            r is Err ==> r == Err::<Vec<Record>, StorageError>(StorageError::ShardNotFound),
            r is Ok ==> {
                let log = self.log_of(ns@, name@);
                &&& offset >= log.len() ==> r->Ok_0@.len() == 0
                &&& offset < log.len() ==> views(r->Ok_0@) == fit_read(
                    tagged(log.subrange(offset as int, log.len() as int), tag@),
                    0,
                    cfg.max_record_num as nat,
                    cfg.max_size as nat,
                )
            },
    {
        match self.find(ns, name) {
            None => Err(StorageError::ShardNotFound),
            Some(i) => Ok(self.shards[i].read_by_tag(offset, tag, cfg)),
        }
    }

    /// The latest record of shard `(ns, name)` with key `key`, if its offset is at
    /// least `offset` and it fits in `cfg`.
    pub fn read_by_key(&self, ns: &str, name: &str, offset: u64, key: &str, cfg: ReadConfig) -> (r: Result<Vec<Record>, StorageError>)
        requires
            self.wf(),
        ensures
            r is Ok <==> self.has_shard(ns@, name@),
            r is Err ==> r == Err::<Vec<Record>, StorageError>(StorageError::ShardNotFound),
            r is Ok ==> {
                let log = self.log_of(ns@, name@);
                let p = latest_with_key(log, key@);
                if key@.len() > 0 && p >= offset && cfg.max_record_num >= 1 && log[p].data.len() <= cfg.max_size {
                    views(r->Ok_0@) == seq![log[p]]
                } else {
                    r->Ok_0@.len() == 0
                }
            },
    {
        match self.find(ns, name) {
            None => Err(StorageError::ShardNotFound),
            Some(i) => Ok(self.shards[i].read_by_key(offset, key, cfg)),
        }
    }

    /// The smallest offset of shard `(ns, name)` whose record's timestamp is at least `ts`.
    pub fn get_offset_by_timestamp(&self, ns: &str, name: &str, ts: u64) -> (r: Result<Option<ShardOffset>, StorageError>)
        requires
            self.wf(),
        ensures
            r is Ok <==> self.has_shard(ns@, name@),
            r is Err ==> r == Err::<Option<ShardOffset>, StorageError>(StorageError::ShardNotFound),
            r is Ok ==> {
                let log = self.log_of(ns@, name@);
                match r->Ok_0 {
                    Some(so) => first_at_or_after(log, ts, so.offset as int) && so.namespace@ == ns@
                        && so.shard_name@ == name@,
                    None => forall|j: int| 0 <= j < log.len() ==> #[trigger] log[j].timestamp < ts,
                }
            },
    {
        match self.find(ns, name) {
            None => Err(StorageError::ShardNotFound),
            Some(i) => match self.shards[i].offset_by_timestamp(ts) {
                Some(o) => Ok(
                    Some(
                        ShardOffset {
                            namespace: String::from_str(ns),
                            shard_name: String::from_str(name),
                            offset: o,
                        },
                    ),
                ),
                None => Ok(None),
            },
        }
    }
}

impl MemoryStorageAdapter {
    /// The offset `group` committed on shard `(ns, shard)`, if any.
    pub open spec fn committed(&self, group: Seq<char>, ns: Seq<char>, shard: Seq<char>) -> Option<u64> {
        committed_of(self.group_offsets@, group, ns, shard)
    }

    /// Commits `offset` for `group` on one shard. Committed offsets never go
    /// back: the larger of the old and the new one stays.
    pub fn commit_shard_offset(&mut self, group: &str, ns: &str, shard: &str, offset: u64)
        requires
            old(self).wf(),
        ensures
            final(self).wf(),
            final(self).shards == old(self).shards,
            final(self).committed(group@, ns@, shard@) == Some(match old(self).committed(group@, ns@, shard@) {
                Some(o) => if o >= offset { o } else { offset },
                None => offset,
            }),
            forall|g: Seq<char>, n: Seq<char>, sh: Seq<char>| !(g == group@ && n == ns@ && sh == shard@) ==> #[trigger] final(self).committed(g, n, sh) == old(self).committed(g, n, sh),
    {
        let ghost all = self.group_offsets@;
        let mut current: Option<u64> = None;
        let mut kept: Vec<GroupOffset> = Vec::new();
        let mut rest = Vec::new();
        std::mem::swap(&mut self.group_offsets, &mut rest);
        let mut seen: usize = 0;
        assert(all.subrange(0, 0) =~= Seq::<GroupOffset>::empty());
        assert(rest.len() == all.len());
        while rest.len() > 0
            invariant
                all.len() <= usize::MAX,
                seen + rest@.len() == all.len(),
                rest@ == all.subrange(seen as int, all.len() as int),
                kept@ == without_group_key(all.subrange(0, seen as int), group@, ns@, shard@),
                current == committed_of(all.subrange(0, seen as int), group@, ns@, shard@),
            decreases rest@.len(),
        {
            let e = rest.remove(0);
            let ghost pre = all.subrange(0, seen + 1);
            assert(pre.drop_last() =~= all.subrange(0, seen as int));
            assert(pre.last() == e);
            assert(rest@ =~= all.subrange(seen + 1, all.len() as int));
            if text_eq(e.group.as_str(), group) && text_eq(e.namespace.as_str(), ns) && text_eq(e.shard_name.as_str(), shard) {
                current = Some(e.offset);
            } else {
                kept.push(e);
            }
            seen += 1;
        }
        assert(all.subrange(0, seen as int) =~= all);
        let next = match current {
            Some(o) => if o >= offset { o } else { offset },
            None => offset,
        };
        let ghost w = kept@;
        kept.push(GroupOffset {
            group: String::from_str(group),
            namespace: String::from_str(ns),
            shard_name: String::from_str(shard),
            offset: next,
        });
        assert(kept@.drop_last() =~= w);
        proof {
            lemma_without_group_key_unique(all, group@, ns@, shard@);
            assert forall|a: int, b: int| 0 <= a < b < kept@.len() implies !same_group_key(#[trigger] kept@[a], #[trigger] kept@[b]) by {
                if b == w.len() {
                    assert(kept@[a] == w[a]);
                    assert(!is_group_key(w[a], group@, ns@, shard@));
                } else {
                    assert(kept@[a] == w[a] && kept@[b] == w[b]);
                }
            }
        }
        self.group_offsets = kept;
        proof {
            assert forall|g: Seq<char>, n: Seq<char>, sh: Seq<char>| !(g == group@ && n == ns@ && sh == shard@) implies #[trigger] self.committed(g, n, sh) == old(self).committed(g, n, sh) by {
                lemma_without_group_key(all, group@, ns@, shard@, g, n, sh);
            }
        }
    }

    /// Commits an offset for each `(shard, offset)` of `offsets`, in order.
    pub fn commit_offset(&mut self, group: &str, ns: &str, offsets: &Vec<(String, u64)>)
        requires
            old(self).wf(),
        ensures
            final(self).wf(),
            final(self).shards == old(self).shards,
            forall|sh: Seq<char>| #[trigger] final(self).committed(group@, ns@, sh) == max_commit(old(self).committed(group@, ns@, sh), offsets@, sh),
            forall|g: Seq<char>, n: Seq<char>, sh: Seq<char>|
                !(g == group@ && n == ns@) ==> #[trigger] final(self).committed(g, n, sh) == old(self).committed(g, n, sh),
    {
        let mut i: usize = 0;
        assert forall|sh: Seq<char>| #[trigger] self.committed(group@, ns@, sh) == max_commit(old(self).committed(group@, ns@, sh), offsets@.subrange(0, 0), sh) by {
            assert(offsets@.subrange(0, 0).len() == 0);
        }
        while i < offsets.len()
            invariant
                self.wf(),
                self.shards == old(self).shards,
                i <= offsets@.len(),
                forall|sh: Seq<char>| #[trigger] self.committed(group@, ns@, sh) == max_commit(old(self).committed(group@, ns@, sh), offsets@.subrange(0, i as int), sh),
                forall|g: Seq<char>, n: Seq<char>, sh: Seq<char>|
                    !(g == group@ && n == ns@) ==> #[trigger] self.committed(g, n, sh) == old(self).committed(g, n, sh),
            decreases offsets@.len() - i,
        {
            let ghost before = *self;
            let ghost pre = offsets@.subrange(0, i + 1);
            assert(pre.drop_last() =~= offsets@.subrange(0, i as int));
            assert(pre.last() == offsets@[i as int]);
            self.commit_shard_offset(group, ns, offsets[i].0.as_str(), offsets[i].1);
            proof {
                assert forall|sh: Seq<char>| #[trigger] self.committed(group@, ns@, sh) == max_commit(old(self).committed(group@, ns@, sh), pre, sh) by {
                    assert(before.committed(group@, ns@, sh) == max_commit(old(self).committed(group@, ns@, sh), offsets@.subrange(0, i as int), sh));
                }
                assert forall|g: Seq<char>, n: Seq<char>, sh: Seq<char>|
                    !(g == group@ && n == ns@) implies #[trigger] self.committed(g, n, sh) == old(self).committed(g, n, sh) by {
                    assert(before.committed(g, n, sh) == old(self).committed(g, n, sh));
                }
            }
            i += 1;
        }
        assert(offsets@.subrange(0, i as int) =~= offsets@);
    }

    /// The offsets `group` committed, one per shard, in the order they were
    /// last committed.
    pub fn get_offset_by_group(&self, group: &str) -> (r: Vec<ShardOffset>)
        requires
            self.wf(),
        ensures
            forall|i: int| 0 <= i < r@.len() ==> self.committed(group@, (#[trigger] r@[i]).namespace@, r@[i].shard_name@) == Some(r@[i].offset),
            forall|n: Seq<char>, sh: Seq<char>| (#[trigger] self.committed(group@, n, sh)) is Some ==> exists|i: int|
                0 <= i < r@.len() && (#[trigger] r@[i]).namespace@ == n && r@[i].shard_name@ == sh
                && r@[i].offset == self.committed(group@, n, sh)->Some_0,
            r@.len() == group_entries(self.group_offsets@, group@).len(),
            forall|i: int| 0 <= i < r@.len() ==> {
                let e = #[trigger] group_entries(self.group_offsets@, group@)[i];
                r@[i].namespace@ == e.namespace@ && r@[i].shard_name@ == e.shard_name@ && r@[i].offset == e.offset
            },
    {
        let mut r: Vec<ShardOffset> = Vec::new();
        let mut i: usize = 0;
        while i < self.group_offsets.len()
            invariant
                i <= self.group_offsets@.len(),
                r@.len() == group_entries(self.group_offsets@.subrange(0, i as int), group@).len(),
                forall|k: int| 0 <= k < r@.len() ==> {
                    let e = #[trigger] group_entries(self.group_offsets@.subrange(0, i as int), group@)[k];
                    r@[k].namespace@ == e.namespace@ && r@[k].shard_name@ == e.shard_name@ && r@[k].offset == e.offset
                },
            decreases self.group_offsets@.len() - i,
        {
            let ghost pre = self.group_offsets@.subrange(0, i + 1);
            assert(pre.drop_last() =~= self.group_offsets@.subrange(0, i as int));
            assert(pre.last() == self.group_offsets@[i as int]);
            let e = &self.group_offsets[i];
            if text_eq(e.group.as_str(), group) {
                r.push(ShardOffset { namespace: e.namespace.clone(), shard_name: e.shard_name.clone(), offset: e.offset });
            }
            i += 1;
        }
        assert(self.group_offsets@.subrange(0, i as int) =~= self.group_offsets@);
        proof {
            let all = self.group_offsets@;
            let ge = group_entries(all, group@);
            lemma_group_entries_from(all, group@);
            assert forall|k: int| 0 <= k < r@.len() implies self.committed(group@, (#[trigger] r@[k]).namespace@, r@[k].shard_name@) == Some(r@[k].offset) by {
                let e = ge[k];
                let j = choose|j: int| 0 <= j < all.len() && #[trigger] ge[k] == all[j] && all[j].group@ == group@;
                lemma_committed_at(all, j);
                assert(r@[k].namespace@ == ge[k].namespace@ && r@[k].shard_name@ == ge[k].shard_name@ && r@[k].offset == ge[k].offset);
            }
            assert forall|n: Seq<char>, sh: Seq<char>| (#[trigger] self.committed(group@, n, sh)) is Some implies exists|k: int|
                0 <= k < r@.len() && (#[trigger] r@[k]).namespace@ == n && r@[k].shard_name@ == sh
                && r@[k].offset == self.committed(group@, n, sh)->Some_0 by {
                lemma_committed_some(all, group@, n, sh);
                let o = self.committed(group@, n, sh)->Some_0;
                let j = choose|j: int| 0 <= j < all.len() && is_group_key(#[trigger] all[j], group@, n, sh) && all[j].offset == o;
                lemma_group_entries_complete(all, group@, j);
                let k = choose|k: int| 0 <= k < ge.len() && ge[k] == all[j];
                assert(r@[k].namespace@ == ge[k].namespace@);
            }
        }
        r
    }
}

/// What a key of the on-disk layout maps to: the record at a position of the
/// batch, or an offset.
#[derive(Clone, Copy, Debug, PartialEq, Eq, Structural)]
pub enum KvValue {
    Record(usize),
    Offset(u64),
}

/// One write of the batch that commits records to the ordered key-value store.
#[derive(Debug)]
pub struct KvPut {
    pub key: String,
    pub value: KvValue,
}

pub open spec fn put_view(p: KvPut) -> (Seq<char>, KvValue) {
    (p.key@, p.value)
}

/// The writes for record `i` of a batch, stored at offset `o`: the record
/// itself, its key index when the key is not empty, one tag index per tag, and
/// its timestamp index.
pub open spec fn record_puts(ns: Seq<char>, shard: Seq<char>, r: RecordView, o: u64, i: nat) -> Seq<(Seq<char>, KvValue)> {
    seq![(record_key_spec(ns, shard, o as nat), KvValue::Record(i as usize))]
        + (if r.key.len() > 0 { seq![(key_index_key_spec(ns, shard, r.key), KvValue::Offset(o))] } else { Seq::empty() })
        + Seq::new(r.tags.len(), |j: int| (tag_key_spec(ns, shard, r.tags[j]@, o as nat), KvValue::Offset(o)))
        + seq![(timestamp_key_spec(ns, shard, r.timestamp as nat, o as nat), KvValue::Offset(o))]
}

/// The writes for the records of `rs`, stored from offset `start` on.
pub open spec fn batch_puts(ns: Seq<char>, shard: Seq<char>, rs: Seq<RecordView>, start: nat) -> Seq<(Seq<char>, KvValue)>
    decreases rs.len(),
{
    if rs.len() == 0 {
        Seq::empty()
    } else {
        batch_puts(ns, shard, rs.drop_last(), start) + record_puts(
            ns,
            shard,
            rs.last(),
            (start + rs.len() - 1) as u64,
            (rs.len() - 1) as nat,
        )
    }
}

/// The atomic write batch that appends `records` to shard `(ns, shard)` whose
/// next offset is `start`: the writes of each record in order, then the new
/// next offset.
pub fn write_batch_puts(ns: &str, shard: &str, start: u64, records: &Vec<Record>) -> (r: Vec<KvPut>)
    requires
        start + records@.len() <= u64::MAX,
    ensures
        r@.map_values(|p: KvPut| put_view(p)) == batch_puts(ns@, shard@, views(records@), start as nat)
            + seq![(offset_key_spec(ns@, shard@), KvValue::Offset((start + records@.len()) as u64))],
{
    let ghost all = views(records@);
    let mut r: Vec<KvPut> = Vec::new();
    let mut i: usize = 0;
    assert(all.subrange(0, 0) =~= Seq::<RecordView>::empty());
    while i < records.len()
        invariant
            i <= records@.len(),
            start + records@.len() <= u64::MAX,
            all == views(records@),
            r@.map_values(|p: KvPut| put_view(p)) == batch_puts(ns@, shard@, all.subrange(0, i as int), start as nat),
        decreases records@.len() - i,
    {
        let ghost before = r@.map_values(|p: KvPut| put_view(p));
        let rec = &records[i];
        let o = start + i as u64;
        let ghost rv = all[i as int];
        assert(rv == rec@);
        let first = KvPut { key: shard_record_key(ns, shard, o), value: KvValue::Record(i) };
        let ghost v0 = put_view(first);
        let ghost r0 = r@;
        r.push(first);
        assert(r@.map_values(|p: KvPut| put_view(p)) =~= r0.map_values(|p: KvPut| put_view(p)).push(v0));
        let ghost key_part: Seq<(Seq<char>, KvValue)> = if rv.key.len() > 0 {
            seq![(key_index_key_spec(ns@, shard@, rv.key), KvValue::Offset(o))]
        } else {
            Seq::empty()
        };
        if !rec.key.as_str().is_empty() {
            let kp = KvPut { key: key_offset_key(ns, shard, rec.key.as_str()), value: KvValue::Offset(o) };
            let ghost r1 = r@;
            let ghost v1 = put_view(kp);
            r.push(kp);
            assert(r@.map_values(|p: KvPut| put_view(p)) =~= r1.map_values(|p: KvPut| put_view(p)).push(v1));
        }
        let ghost after_key = r@.map_values(|p: KvPut| put_view(p));
        assert(after_key =~= before + seq![v0] + key_part);
        let mut j: usize = 0;
        while j < rec.tags.len()
            invariant
                j <= rec.tags@.len(),
                r@.map_values(|p: KvPut| put_view(p)) == after_key + Seq::new(j as nat, |t: int| (tag_key_spec(ns@, shard@, rec.tags@[t]@, o as nat), KvValue::Offset(o))),
            decreases rec.tags@.len() - j,
        {
            let ghost rb = r@;
            let tp = KvPut { key: tag_offsets_key(ns, shard, rec.tags[j].as_str(), o), value: KvValue::Offset(o) };
            let ghost vt = put_view(tp);
            r.push(tp);
            assert(r@.map_values(|p: KvPut| put_view(p)) =~= rb.map_values(|p: KvPut| put_view(p)).push(vt));
            j += 1;
            assert(r@.map_values(|p: KvPut| put_view(p)) =~= after_key + Seq::new(j as nat, |t: int| (tag_key_spec(ns@, shard@, rec.tags@[t]@, o as nat), KvValue::Offset(o))));
        }
        let ghost after_tags = r@.map_values(|p: KvPut| put_view(p));
        let tsp = KvPut { key: timestamp_offset_key(ns, shard, rec.timestamp, o), value: KvValue::Offset(o) };
        let ghost vts = put_view(tsp);
        let ghost r3 = r@;
        r.push(tsp);
        assert(r@.map_values(|p: KvPut| put_view(p)) =~= r3.map_values(|p: KvPut| put_view(p)).push(vts));
        proof {
            let pre = all.subrange(0, i + 1);
            assert(pre.drop_last() =~= all.subrange(0, i as int));
            assert(pre.last() == rv);
            assert(Seq::new(rec.tags@.len(), |t: int| (tag_key_spec(ns@, shard@, rec.tags@[t]@, o as nat), KvValue::Offset(o)))
                =~= Seq::new(rv.tags.len(), |t: int| (tag_key_spec(ns@, shard@, rv.tags[t]@, o as nat), KvValue::Offset(o))));
            assert(r@.map_values(|p: KvPut| put_view(p)) =~= before + record_puts(ns@, shard@, rv, o, i as nat));
        }
        i += 1;
    }
    assert(all.subrange(0, i as int) =~= all);
    let ghost body = r@.map_values(|p: KvPut| put_view(p));
    r.push(KvPut { key: shard_offset_key(ns, shard), value: KvValue::Offset(start + records.len() as u64) });
    assert(r@.map_values(|p: KvPut| put_view(p)) =~= body + seq![(offset_key_spec(ns@, shard@), KvValue::Offset((start + records@.len()) as u64))]);
    r
}

/// Offsets of `log` are `0, 1, 2, ...` with no gap.
pub open spec fn dense(log: Seq<RecordView>) -> bool {
    forall|i: int| 0 <= i < log.len() ==> #[trigger] log[i].offset == Some(i as u64)
}

/// Total `data` length of `rs`.
pub open spec fn total_size(rs: Seq<RecordView>) -> nat
    decreases rs.len(),
{
    if rs.len() == 0 {
        0
    } else {
        rs[0].data.len() + total_size(rs.drop_first())
    }
}

/// Appending a batch to a dense log, as `batch_write` does, leaves it dense: the
/// new records carry the offsets that follow the last one, in order, and the
/// next offset is again the number of records.
pub proof fn lemma_append_stays_dense(log: Seq<RecordView>, batch: Seq<RecordView>)
    requires
        dense(log),
        log.len() + batch.len() <= u64::MAX + 1,
    ensures
        dense(log + stamped(batch, log.len())),
        forall|j: int| 0 <= j < batch.len() ==> #[trigger] (log + stamped(batch, log.len()))[log.len() + j].offset
            == Some((log.len() + j) as u64),
{
    let all = log + stamped(batch, log.len());
    assert forall|i: int| 0 <= i < all.len() implies #[trigger] all[i].offset == Some(i as u64) by {
        if i >= log.len() {
            assert(all[i] == stamped(batch, log.len())[i - log.len()]);
        }
    }
}

proof fn lemma_fit_all(rs: Seq<RecordView>, budget: nat)
    requires
        total_size(rs) <= budget,
    ensures
        fit_count(rs, rs.len(), budget) == rs.len(),
    decreases rs.len(),
{
    if rs.len() > 0 {
        lemma_fit_all(rs.drop_first(), (budget - rs[0].data.len()) as nat);
    }
}

proof fn lemma_stamped_size(rs: Seq<RecordView>, start: nat)
    ensures
        total_size(stamped(rs, start)) == total_size(rs),
        stamped(rs, start).len() == rs.len(),
    decreases rs.len(),
{
    if rs.len() > 0 {
        assert(stamped(rs, start).drop_first() =~= stamped(rs.drop_first(), start + 1));
        lemma_stamped_size(rs.drop_first(), start + 1);
    }
}

/// Reading back a batch: after appending `batch` to a log that held `o` records, a
/// read from offset `o` for `batch.len()` records, with a size budget that the
/// batch fits in, returns exactly the batch with offsets `o, o + 1, ...`.
pub proof fn lemma_write_then_read(log: Seq<RecordView>, batch: Seq<RecordView>, max_size: nat)
    requires
        batch.len() > 0,
        total_size(batch) <= max_size,
    ensures
        fit_read(log + stamped(batch, log.len()), log.len() as int, batch.len(), max_size) == stamped(batch, log.len()),
{
    let all = log + stamped(batch, log.len());
    let tail = all.subrange(log.len() as int, all.len() as int);
    assert(tail =~= stamped(batch, log.len()));
    lemma_stamped_size(batch, log.len());
    lemma_fit_all(tail, max_size);
    assert(tail.subrange(0, tail.len() as int) =~= tail);
}

/// With a size budget of zero, a read at an existing offset returns its record if
/// and only if that record's data is empty.
pub proof fn lemma_zero_budget_read(log: Seq<RecordView>, offset: int, max_num: nat)
    requires
        0 <= offset < log.len(),
        max_num >= 1,
    ensures
        (fit_read(log, offset, max_num, 0).len() > 0) <==> (log[offset].data.len() == 0),
        fit_read(log, offset, max_num, 0).len() > 0 ==> fit_read(log, offset, max_num, 0)[0] == log[offset],
{
    let tail = log.subrange(offset, log.len() as int);
    assert(tail[0] == log[offset]);
    lemma_fit_count_bound(tail, max_num, 0);
}

/// A timestamp lookup where no record has exactly `ts` lands on the first record
/// whose timestamp is greater than `ts`.
pub proof fn lemma_timestamp_lookup_without_exact_match(log: Seq<RecordView>, ts: u64, o: int)
    requires
        first_at_or_after(log, ts, o),
        forall|j: int| 0 <= j < log.len() ==> #[trigger] log[j].timestamp != ts,
    ensures
        log[o].timestamp > ts,
        forall|j: int| 0 <= j < o ==> #[trigger] log[j].timestamp <= ts,
{
}

} // verus!
