use vstd::prelude::*;

verus! {

/// The character of a decimal digit.
pub open spec fn digit_char(d: nat) -> char
    recommends
        d < 10,
{
    if d == 0 { '0' } else if d == 1 { '1' } else if d == 2 { '2' } else if d == 3 { '3' }
    else if d == 4 { '4' } else if d == 5 { '5' } else if d == 6 { '6' } else if d == 7 { '7' }
    else if d == 8 { '8' } else { '9' }
}

/// The decimal text of `n`, without leading zeros.
pub open spec fn decimal(n: nat) -> Seq<char>
    decreases n,
{
    if n < 10 {
        seq![digit_char(n)]
    } else {
        decimal(n / 10).push(digit_char(n % 10))
    }
}

/// The last `w` decimal digits of `n`, padded on the left with zeros.
pub open spec fn padded(n: nat, w: nat) -> Seq<char>
    decreases w,
{
    if w == 0 {
        Seq::empty()
    } else {
        padded(n / 10, (w - 1) as nat).push(digit_char(n % 10))
    }
}

fn digit_str(d: u64) -> (r: &'static str)
    requires
        d < 10,
    ensures
        r@ == seq![digit_char(d as nat)],
{
    proof {
        reveal_strlit("0");
        reveal_strlit("1");
        reveal_strlit("2");
        reveal_strlit("3");
        reveal_strlit("4");
        reveal_strlit("5");
        reveal_strlit("6");
        reveal_strlit("7");
        reveal_strlit("8");
        reveal_strlit("9");
    }
    let r = if d == 0 { "0" } else if d == 1 { "1" } else if d == 2 { "2" } else if d == 3 { "3" }
    else if d == 4 { "4" } else if d == 5 { "5" } else if d == 6 { "6" } else if d == 7 { "7" }
    else if d == 8 { "8" } else { "9" };
    assert(r@ =~= seq![digit_char(d as nat)]);
    r
}

/// Appends the decimal text of `n`.
pub fn push_decimal(s: &mut String, n: u64)
    ensures
        final(s)@ == old(s)@ + decimal(n as nat),
    decreases n,
{
    if n >= 10 {
        push_decimal(s, n / 10);
    }
    s.append(digit_str(n % 10));
    proof {
        if n >= 10 {
            assert(decimal(n as nat) == decimal((n / 10) as nat).push(digit_char((n % 10) as nat)));
        }
    }
    assert(s@ =~= old(s)@ + decimal(n as nat));
}

/// Appends the last `w` decimal digits of `n`, zero-padded to width `w`.
pub fn push_padded(s: &mut String, n: u64, w: u64)
    ensures
        final(s)@ == old(s)@ + padded(n as nat, w as nat),
    decreases w,
{
    if w > 0 {
        push_padded(s, n / 10, w - 1);
        s.append(digit_str(n % 10));
        assert(s@ =~= old(s)@ + padded(n as nat, w as nat));
    } else {
        assert(s@ =~= old(s)@ + padded(n as nat, w as nat));
    }
}

/// Width of the zero-padded numbers inside storage keys, so that the
/// lexicographic order of keys is the numeric order of offsets and times.
pub const PAD_WIDTH: u64 = 20;

/// `/record/{ns}/{shard}/record/`
pub open spec fn record_prefix_spec(ns: Seq<char>, shard: Seq<char>) -> Seq<char> {
    "/record/"@ + ns + "/"@ + shard + "/record/"@
}

/// `/record/{ns}/{shard}/record/{offset:020}`
pub open spec fn record_key_spec(ns: Seq<char>, shard: Seq<char>, offset: nat) -> Seq<char> {
    record_prefix_spec(ns, shard) + padded(offset, 20)
}

/// `/offset/{ns}/{shard}`
pub open spec fn offset_key_spec(ns: Seq<char>, shard: Seq<char>) -> Seq<char> {
    "/offset/"@ + ns + "/"@ + shard
}

/// `/key/{ns}/{shard}/{key}`
pub open spec fn key_index_key_spec(ns: Seq<char>, shard: Seq<char>, key: Seq<char>) -> Seq<char> {
    "/key/"@ + ns + "/"@ + shard + "/"@ + key
}

/// `/tag/{ns}/{shard}/{tag}/`
pub open spec fn tag_prefix_spec(ns: Seq<char>, shard: Seq<char>, tag: Seq<char>) -> Seq<char> {
    "/tag/"@ + ns + "/"@ + shard + "/"@ + tag + "/"@
}

/// `/tag/{ns}/{shard}/{tag}/{offset:020}`
pub open spec fn tag_key_spec(ns: Seq<char>, shard: Seq<char>, tag: Seq<char>, offset: nat) -> Seq<
    char,
> {
    tag_prefix_spec(ns, shard, tag) + padded(offset, 20)
}

/// `/timestamp/{ns}/{shard}/`
pub open spec fn timestamp_prefix_spec(ns: Seq<char>, shard: Seq<char>) -> Seq<char> {
    "/timestamp/"@ + ns + "/"@ + shard + "/"@
}

/// `/timestamp/{ns}/{shard}/{ts:020}/{offset:020}`
pub open spec fn timestamp_key_spec(ns: Seq<char>, shard: Seq<char>, ts: nat, offset: nat) -> Seq<
    char,
> {
    timestamp_prefix_spec(ns, shard) + padded(ts, 20) + "/"@ + padded(offset, 20)
}

/// `/group/{group}/{ns}/{shard}`
pub open spec fn group_key_spec(group: Seq<char>, ns: Seq<char>, shard: Seq<char>) -> Seq<char> {
    "/group/"@ + group + "/"@ + ns + "/"@ + shard
}

/// `/shard/{ns}/{shard}`
pub open spec fn shard_info_key_spec(ns: Seq<char>, shard: Seq<char>) -> Seq<char> {
    "/shard/"@ + ns + "/"@ + shard
}

/// `{group}_{index}`: the name of a Raft shard.
pub open spec fn shard_name_spec(group: Seq<char>, index: nat) -> Seq<char> {
    group + "_"@ + decimal(index)
}

pub fn shard_record_key_prefix(ns: &str, shard: &str) -> (r: String)
    ensures
        r@ == record_prefix_spec(ns@, shard@),
{
    let mut s = String::from_str("/record/");
    s.append(ns);
    s.append("/");
    s.append(shard);
    s.append("/record/");
    assert(s@ =~= record_prefix_spec(ns@, shard@));
    s
}

pub fn shard_record_key(ns: &str, shard: &str, offset: u64) -> (r: String)
    ensures
        r@ == record_key_spec(ns@, shard@, offset as nat),
{
    let mut s = shard_record_key_prefix(ns, shard);
    push_padded(&mut s, offset, PAD_WIDTH);
    s
}

pub fn shard_offset_key(ns: &str, shard: &str) -> (r: String)
    ensures
        r@ == offset_key_spec(ns@, shard@),
{
    let mut s = String::from_str("/offset/");
    s.append(ns);
    s.append("/");
    s.append(shard);
    assert(s@ =~= offset_key_spec(ns@, shard@));
    s
}

pub fn key_offset_key(ns: &str, shard: &str, key: &str) -> (r: String)
    ensures
        r@ == key_index_key_spec(ns@, shard@, key@),
{
    let mut s = String::from_str("/key/");
    s.append(ns);
    s.append("/");
    s.append(shard);
    s.append("/");
    s.append(key);
    assert(s@ =~= key_index_key_spec(ns@, shard@, key@));
    s
}

pub fn tag_offsets_key_prefix(ns: &str, shard: &str, tag: &str) -> (r: String)
    ensures
        r@ == tag_prefix_spec(ns@, shard@, tag@),
{
    let mut s = String::from_str("/tag/");
    s.append(ns);
    s.append("/");
    s.append(shard);
    s.append("/");
    s.append(tag);
    s.append("/");
    assert(s@ =~= tag_prefix_spec(ns@, shard@, tag@));
    s
}

pub fn tag_offsets_key(ns: &str, shard: &str, tag: &str, offset: u64) -> (r: String)
    ensures
        r@ == tag_key_spec(ns@, shard@, tag@, offset as nat),
{
    let mut s = tag_offsets_key_prefix(ns, shard, tag);
    push_padded(&mut s, offset, PAD_WIDTH);
    s
}

pub fn timestamp_offset_key_prefix(ns: &str, shard: &str) -> (r: String)
    ensures
        r@ == timestamp_prefix_spec(ns@, shard@),
{
    let mut s = String::from_str("/timestamp/");
    s.append(ns);
    s.append("/");
    s.append(shard);
    s.append("/");
    assert(s@ =~= timestamp_prefix_spec(ns@, shard@));
    s
}

pub fn timestamp_offset_key(ns: &str, shard: &str, timestamp: u64, offset: u64) -> (r: String)
    ensures
        r@ == timestamp_key_spec(ns@, shard@, timestamp as nat, offset as nat),
{
    let mut s = timestamp_offset_key_prefix(ns, shard);
    push_padded(&mut s, timestamp, PAD_WIDTH);
    s.append("/");
    push_padded(&mut s, offset, PAD_WIDTH);
    assert(s@ =~= timestamp_key_spec(ns@, shard@, timestamp as nat, offset as nat));
    s
}

pub fn group_record_offsets_key(group: &str, ns: &str, shard: &str) -> (r: String)
    ensures
        r@ == group_key_spec(group@, ns@, shard@),
{
    let mut s = String::from_str("/group/");
    s.append(group);
    s.append("/");
    s.append(ns);
    s.append("/");
    s.append(shard);
    assert(s@ =~= group_key_spec(group@, ns@, shard@));
    s
}

pub fn shard_info_key(ns: &str, shard: &str) -> (r: String)
    ensures
        r@ == shard_info_key_spec(ns@, shard@),
{
    let mut s = String::from_str("/shard/");
    s.append(ns);
    s.append("/");
    s.append(shard);
    assert(s@ =~= shard_info_key_spec(ns@, shard@));
    s
}

/// The name of shard `index` of the Raft group `group`.
pub fn shard_name(group: &str, index: u32) -> (r: String)
    ensures
        r@ == shard_name_spec(group@, index as nat),
{
    let mut s = String::from_str(group);
    s.append("_");
    push_decimal(&mut s, index as u64);
    assert(s@ =~= shard_name_spec(group@, index as nat));
    s
}

} // verus!
