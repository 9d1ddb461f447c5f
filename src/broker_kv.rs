use vstd::prelude::*;
use crate::text::{is_prefix, text_eq, text_starts_with};

verus! {

/// One key of the broker column family with its encoded value.
#[derive(Debug)]
pub struct KvEntry {
    pub key: String,
    pub value: Vec<u8>,
}

/// The value stored under `key` (the latest entry), if any.
pub open spec fn kv_get(s: Seq<KvEntry>, key: Seq<char>) -> Option<Seq<u8>>
    decreases s.len(),
{
    if s.len() == 0 {
        None
    } else if s.last().key@ == key {
        Some(s.last().value@)
    } else {
        kv_get(s.drop_last(), key)
    }
}

/// The entries of `s` whose key starts with `prefix`, in order.
pub open spec fn with_prefix(s: Seq<KvEntry>, prefix: Seq<char>) -> Seq<KvEntry>
    decreases s.len(),
{
    if s.len() == 0 {
        Seq::empty()
    } else if is_prefix(prefix, s.last().key@) {
        with_prefix(s.drop_last(), prefix).push(s.last())
    } else {
        with_prefix(s.drop_last(), prefix)
    }
}

/// The entries of `s` whose key does not start with `prefix`, in order.
pub open spec fn without_prefix(s: Seq<KvEntry>, prefix: Seq<char>) -> Seq<KvEntry>
    decreases s.len(),
{
    if s.len() == 0 {
        Seq::empty()
    } else if is_prefix(prefix, s.last().key@) {
        without_prefix(s.drop_last(), prefix)
    } else {
        without_prefix(s.drop_last(), prefix).push(s.last())
    }
}

/// The entries of `s` whose key is not `key`, in order.
pub open spec fn without_key(s: Seq<KvEntry>, key: Seq<char>) -> Seq<KvEntry>
    decreases s.len(),
{
    if s.len() == 0 {
        Seq::empty()
    } else if s.last().key@ == key {
        without_key(s.drop_last(), key)
    } else {
        without_key(s.drop_last(), key).push(s.last())
    }
}

proof fn lemma_without_key(s: Seq<KvEntry>, key: Seq<char>, other: Seq<char>)
    ensures
        kv_get(without_key(s, key), key) is None,
        other != key ==> kv_get(without_key(s, key), other) == kv_get(s, other),
    decreases s.len(),
{
    if s.len() > 0 {
        lemma_without_key(s.drop_last(), key, other);
        let w = without_key(s.drop_last(), key);
        if s.last().key@ != key {
            assert(w.push(s.last()).drop_last() =~= w);
        }
    }
}

proof fn lemma_without_prefix(s: Seq<KvEntry>, prefix: Seq<char>, k: Seq<char>)
    ensures
        kv_get(without_prefix(s, prefix), k) == if is_prefix(prefix, k) { None } else { kv_get(s, k) },
    decreases s.len(),
{
    if s.len() > 0 {
        lemma_without_prefix(s.drop_last(), prefix, k);
        let w = without_prefix(s.drop_last(), prefix);
        if !is_prefix(prefix, s.last().key@) {
            assert(w.push(s.last()).drop_last() =~= w);
        }
    }
}

/// The broker column family of the key-value engine: keys to encoded values.
pub struct BrokerKv {
    pub entries: Vec<KvEntry>,
}

impl BrokerKv {
    pub open spec fn get(&self, key: Seq<char>) -> Option<Seq<u8>> {
        kv_get(self.entries@, key)
    }

    pub fn new() -> (r: BrokerKv)
        ensures
            forall|k: Seq<char>| #[trigger] r.get(k) is None,
    {
        BrokerKv { entries: Vec::new() }
    }
}

/// Drops the entries whose key is `key`, or starts with it when `as_prefix`.
fn remove_entries(kv: &mut BrokerKv, key: &str, as_prefix: bool)
    ensures
        !as_prefix ==> final(kv).entries@ == without_key(old(kv).entries@, key@),
        as_prefix ==> final(kv).entries@ == without_prefix(old(kv).entries@, key@),
{
    let ghost all = kv.entries@;
    let mut kept: Vec<KvEntry> = Vec::new();
    let mut rest = Vec::new();
    std::mem::swap(&mut kv.entries, &mut rest);
    let mut seen: usize = 0;
    assert(all.subrange(0, 0) =~= Seq::<KvEntry>::empty());
    assert(rest.len() == all.len());
    while rest.len() > 0
        invariant
            all.len() <= usize::MAX,
            seen + rest@.len() == all.len(),
            rest@ == all.subrange(seen as int, all.len() as int),
            !as_prefix ==> kept@ == without_key(all.subrange(0, seen as int), key@),
            as_prefix ==> kept@ == without_prefix(all.subrange(0, seen as int), key@),
        decreases rest@.len(),
    {
        let e = rest.remove(0);
        let ghost pre = all.subrange(0, seen + 1);
        assert(pre.drop_last() =~= all.subrange(0, seen as int));
        assert(pre.last() == e);
        assert(rest@ =~= all.subrange(seen + 1, all.len() as int));
        let drop = if as_prefix { text_starts_with(e.key.as_str(), key) } else { text_eq(e.key.as_str(), key) };
        if !drop {
            kept.push(e);
        }
        seen += 1;
    }
    assert(all.subrange(0, seen as int) =~= all);
    kv.entries = kept;
}

/// Stores `value` under `key`, replacing what was there.
pub fn engine_save_by_broker(kv: &mut BrokerKv, key: &str, value: Vec<u8>)
    ensures
        final(kv).get(key@) == Some(value@),
        forall|k: Seq<char>| k != key@ ==> #[trigger] final(kv).get(k) == old(kv).get(k),
{
    let ghost v = value@;
    remove_entries(kv, key, false);
    let ghost w = kv.entries@;
    kv.entries.push(KvEntry { key: String::from_str(key), value });
    proof {
        assert(kv.entries@.drop_last() =~= w);
        assert forall|k: Seq<char>| k != key@ implies #[trigger] kv.get(k) == old(kv).get(k) by {
            lemma_without_key(old(kv).entries@, key@, k);
        }
    }
}

/// The value stored under `key`, if any.
pub fn engine_get_by_broker(kv: &BrokerKv, key: &str) -> (r: Option<Vec<u8>>)
    ensures
        match r {
            Some(v) => kv.get(key@) == Some(v@),
            None => kv.get(key@) is None,
        },
{
    let mut i: usize = kv.entries.len();
    assert(kv.entries@.subrange(0, i as int) =~= kv.entries@);
    while i > 0
        invariant
            i <= kv.entries@.len(),
            kv_get(kv.entries@, key@) == kv_get(kv.entries@.subrange(0, i as int), key@),
        decreases i,
    {
        let ghost pre = kv.entries@.subrange(0, i as int);
        assert(pre.last() == kv.entries@[i - 1]);
        if text_eq(kv.entries[i - 1].key.as_str(), key) {
            return Some(crate::text::copy_bytes(&kv.entries[i - 1].value));
        }
        assert(pre.drop_last() =~= kv.entries@.subrange(0, i - 1));
        i -= 1;
    }
    None
}

/// Whether a value is stored under `key`.
pub fn engine_exists_by_broker(kv: &BrokerKv, key: &str) -> (r: bool)
    ensures
        r == kv.get(key@) is Some,
{
    engine_get_by_broker(kv, key).is_some()
}

/// Removes `key`.
pub fn engine_delete_by_broker(kv: &mut BrokerKv, key: &str)
    ensures
        final(kv).get(key@) is None,
        forall|k: Seq<char>| k != key@ ==> #[trigger] final(kv).get(k) == old(kv).get(k),
{
    remove_entries(kv, key, false);
    proof {
        lemma_without_key(old(kv).entries@, key@, key@);
        assert forall|k: Seq<char>| k != key@ implies #[trigger] kv.get(k) == old(kv).get(k) by {
            lemma_without_key(old(kv).entries@, key@, k);
        }
    }
}

/// The values of the keys that start with `prefix`, in the order the store
/// holds them.
pub fn engine_prefix_list_by_broker(kv: &BrokerKv, prefix: &str) -> (r: Vec<Vec<u8>>)
    ensures
        r@.map_values(|v: Vec<u8>| v@) == with_prefix(kv.entries@, prefix@).map_values(|e: KvEntry| e.value@),
{
    let mut r: Vec<Vec<u8>> = Vec::new();
    let mut i: usize = 0;
    assert(kv.entries@.subrange(0, 0) =~= Seq::<KvEntry>::empty());
    while i < kv.entries.len()
        invariant
            i <= kv.entries@.len(),
            r@.map_values(|v: Vec<u8>| v@) == with_prefix(kv.entries@.subrange(0, i as int), prefix@).map_values(|e: KvEntry| e.value@),
        decreases kv.entries@.len() - i,
    {
        let ghost pre = kv.entries@.subrange(0, i + 1);
        assert(pre.drop_last() =~= kv.entries@.subrange(0, i as int));
        assert(pre.last() == kv.entries@[i as int]);
        let ghost r0 = r@;
        if text_starts_with(kv.entries[i].key.as_str(), prefix) {
            let v = crate::text::copy_bytes(&kv.entries[i].value);
            r.push(v);
            assert(r@.map_values(|v: Vec<u8>| v@) =~= r0.map_values(|v: Vec<u8>| v@).push(kv.entries@[i as int].value@));
            assert(with_prefix(pre, prefix@).map_values(|e: KvEntry| e.value@)
                =~= with_prefix(kv.entries@.subrange(0, i as int), prefix@).map_values(|e: KvEntry| e.value@).push(kv.entries@[i as int].value@));
        }
        i += 1;
    }
    assert(kv.entries@.subrange(0, i as int) =~= kv.entries@);
    r
}

/// Removes every key that starts with `prefix`.
pub fn engine_delete_prefix_by_broker(kv: &mut BrokerKv, prefix: &str)
    ensures
        forall|k: Seq<char>| #[trigger] final(kv).get(k) == if is_prefix(prefix@, k) { None } else { old(kv).get(k) },
{
    remove_entries(kv, prefix, true);
    proof {
        assert forall|k: Seq<char>| #[trigger] kv.get(k) == if is_prefix(prefix@, k) { None } else { old(kv).get(k) } by {
            lemma_without_prefix(old(kv).entries@, prefix@, k);
        }
    }
}

} // verus!
