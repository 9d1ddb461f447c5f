use vstd::prelude::*;
use dashmap::DashMap;
use crate::text::text_eq;

verus! {

/// How long acquiring a pooled connection may take, in seconds.
pub const DEFAULT_CONNECTION_TIMEOUT_SECS: u64 = 10;

/// The services a pool connects to.
#[derive(Clone, Copy, Debug, PartialEq, Eq, Structural)]
pub enum ServiceKind {
    MetaInner,
    MetaJournal,
    MetaKv,
    MetaMqtt,
    MetaOpenRaft,
    BrokerMqtt,
    JournalInner,
    JournalAdmin,
}

/// Health of one connection pool.
#[derive(Debug)]
pub struct PoolHealthStatus {
    pub addr: String,
    pub max_open: u64,
    pub connections: u64,
    pub in_use: u64,
    pub idle: u64,
    pub is_healthy: bool,
}

impl PoolHealthStatus {
    /// The health of the pool of one address: healthy when it holds a
    /// connection and one of them is idle.
    pub fn of_pool(addr: &str, max_open: u64, connections: u64, in_use: u64, idle: u64) -> (r: PoolHealthStatus)
        ensures
            r.addr@ == addr@,
            r.max_open == max_open && r.connections == connections && r.in_use == in_use && r.idle == idle,
            r.is_healthy == (connections > 0 && idle > 0),
    {
        PoolHealthStatus {
            addr: String::from_str(addr),
            max_open,
            connections,
            in_use,
            idle,
            is_healthy: connections > 0 && idle > 0,
        }
    }

    /// The health of a pool in the listing of all pools: healthy when it holds
    /// a connection.
    pub fn of_listed_pool(addr: &str, max_open: u64, connections: u64, in_use: u64, idle: u64) -> (r: PoolHealthStatus)
        ensures
            r.addr@ == addr@,
            r.max_open == max_open && r.connections == connections && r.in_use == in_use && r.idle == idle,
            r.is_healthy == (connections > 0),
    {
        PoolHealthStatus {
            addr: String::from_str(addr),
            max_open,
            connections,
            in_use,
            idle,
            is_healthy: connections > 0,
        }
    }
}

#[verifier::external_type_specification]
#[verifier::external_body]
#[verifier::reject_recursive_types(K)]
#[verifier::reject_recursive_types(V)]
#[verifier::reject_recursive_types(S)]
pub struct ExDashMap<K, V, S>(DashMap<K, V, S>);

/// What a map from follower address to leader address holds.
pub uninterp spec fn leader_entries(m: DashMap<String, String>) -> Map<Seq<char>, Seq<char>>;

/// Relies on `DashMap::new`: a new map holds no entry.
#[verifier::external_body]
fn new_leader_map() -> (r: DashMap<String, String>)
    ensures
        leader_entries(r).dom() == Set::<Seq<char>>::empty(),
{
    DashMap::new()
}

/// Relies on `DashMap::get`: the value stored under the key, if there is one.
#[verifier::external_body]
fn leader_map_get(m: &DashMap<String, String>, addr: &str) -> (r: Option<String>)
    ensures
        match r {
            Some(v) => leader_entries(*m).contains_key(addr@) && leader_entries(*m)[addr@] == v@,
            None => !leader_entries(*m).contains_key(addr@),
        },
{
    m.get(addr).map(|e| e.value().clone())
}

/// Relies on `DashMap::insert`: afterwards the key maps to the value and every
/// other key keeps its value.
#[verifier::external_body]
fn leader_map_insert(m: &mut DashMap<String, String>, addr: String, leader_addr: String)
    ensures
        leader_entries(*final(m)) == leader_entries(*old(m)).insert(addr@, leader_addr@),
{
    m.insert(addr, leader_addr);
}

/// Relies on `DashMap::clear`: afterwards the map holds no entry.
#[verifier::external_body]
fn leader_map_clear(m: &mut DashMap<String, String>)
    ensures
        leader_entries(*final(m)).dom() == Set::<Seq<char>>::empty(),
{
    m.clear();
}

/// The cache of leader addresses that followers forward to.
pub struct LeaderCache {
    entries: DashMap<String, String>,
}

impl LeaderCache {
    /// The leader recorded for `addr`, if any.
    pub closed spec fn get_spec(&self, addr: Seq<char>) -> Option<Seq<char>> {
        if leader_entries(self.entries).contains_key(addr) {
            Some(leader_entries(self.entries)[addr])
        } else {
            None
        }
    }

    pub fn new() -> (r: LeaderCache)
        ensures
            forall|a: Seq<char>| #[trigger] r.get_spec(a) is None,
    {
        LeaderCache { entries: new_leader_map() }
    }

    pub fn get_leader_addr(&self, addr: &str) -> (r: Option<String>)
        ensures
            match r {
                Some(l) => self.get_spec(addr@) == Some(l@),
                None => self.get_spec(addr@) is None,
            },
    {
        leader_map_get(&self.entries, addr)
    }

    /// Records that `addr` forwards to `leader_addr`.
    pub fn set_leader_addr(&mut self, addr: String, leader_addr: String)
        ensures
            final(self).get_spec(addr@) == Some(leader_addr@),
            forall|a: Seq<char>| a != addr@ ==> #[trigger] final(self).get_spec(a) == old(self).get_spec(a),
    {
        leader_map_insert(&mut self.entries, addr, leader_addr);
    }

    /// Forgets every leader.
    pub fn clear_leader_cache(&mut self)
        ensures
            forall|a: Seq<char>| #[trigger] final(self).get_spec(a) is None,
    {
        leader_map_clear(&mut self.entries);
    }
}

/// One connection pool: a service at an address.
#[derive(Debug)]
pub struct PoolKey {
    pub service: ServiceKind,
    pub addr: String,
}

pub open spec fn is_pool(k: PoolKey, service: ServiceKind, addr: Seq<char>) -> bool {
    k.service == service && k.addr@ == addr
}

/// The client pools of a process: one pool per service and address, with the
/// leader addresses that followers forward to.
pub struct ClientPool {
    pub max_open_connection: u64,
    pub connection_timeout_secs: u64,
    pub pools: Vec<PoolKey>,
    pub leader_cache: LeaderCache,
}

impl ClientPool {
    /// The leader recorded for `addr`, if any.
    pub open spec fn leader_of(&self, addr: Seq<char>) -> Option<Seq<char>> {
        self.leader_cache.get_spec(addr)
    }

    pub open spec fn has(&self, service: ServiceKind, addr: Seq<char>) -> bool {
        exists|i: int| 0 <= i < self.pools@.len() && is_pool(#[trigger] self.pools@[i], service, addr)
    }

    pub open spec fn wf(&self) -> bool {
        forall|i: int, j: int|
            0 <= i < j < self.pools@.len() ==> !is_pool(#[trigger] self.pools@[i], self.pools@[j].service, #[trigger] self.pools@[j].addr@)
    }

    /// No pools yet, with the default acquisition timeout.
    pub fn new(max_open_connection: u64) -> (r: ClientPool)
        ensures
            r.wf(),
            r.max_open_connection == max_open_connection,
            r.connection_timeout_secs == DEFAULT_CONNECTION_TIMEOUT_SECS,
            r.pools@.len() == 0,
            forall|a: Seq<char>| #[trigger] r.leader_of(a) is None,
    {
        ClientPool::new_with_timeout(max_open_connection, DEFAULT_CONNECTION_TIMEOUT_SECS)
    }

    /// No pools yet, with the given acquisition timeout.
    pub fn new_with_timeout(max_open_connection: u64, connection_timeout_secs: u64) -> (r: ClientPool)
        ensures
            r.wf(),
            r.max_open_connection == max_open_connection,
            r.connection_timeout_secs == connection_timeout_secs,
            r.pools@.len() == 0,
            forall|a: Seq<char>| #[trigger] r.leader_of(a) is None,
    {
        ClientPool { max_open_connection, connection_timeout_secs, pools: Vec::new(), leader_cache: LeaderCache::new() }
    }

    /// The leader that `addr` forwards to, if one was recorded.
    pub fn get_leader_addr(&self, addr: &str) -> (r: Option<String>)
        ensures
            match r {
                Some(l) => self.leader_of(addr@) == Some(l@),
                None => self.leader_of(addr@) is None,
            },
    {
        self.leader_cache.get_leader_addr(addr)
    }

    /// Records that `addr` forwards to `leader_addr`.
    pub fn set_leader_addr(&mut self, addr: String, leader_addr: String)
        ensures
            final(self).pools == old(self).pools,
            final(self).leader_of(addr@) == Some(leader_addr@),
            forall|a: Seq<char>| a != addr@ ==> #[trigger] final(self).leader_of(a) == old(self).leader_of(a),
    {
        self.leader_cache.set_leader_addr(addr, leader_addr);
    }

    /// Forgets every leader.
    pub fn clear_leader_cache(&mut self)
        ensures
            final(self).pools == old(self).pools,
            forall|a: Seq<char>| #[trigger] final(self).leader_of(a) is None,
    {
        self.leader_cache.clear_leader_cache();
    }

    fn position(&self, service: ServiceKind, addr: &str) -> (r: Option<usize>)
        ensures
            match r {
                Some(i) => i < self.pools@.len() && is_pool(self.pools@[i as int], service, addr@),
                None => !self.has(service, addr@),
            },
    {
        let mut i: usize = 0;
        while i < self.pools.len()
            invariant
                i <= self.pools@.len(),
                forall|k: int| 0 <= k < i ==> !is_pool(#[trigger] self.pools@[k], service, addr@),
            decreases self.pools@.len() - i,
        {
            if self.pools[i].service == service && text_eq(self.pools[i].addr.as_str(), addr) {
                return Some(i);
            }
            i += 1;
        }
        None
    }

    /// Makes sure a pool exists for `service` at `addr`; returns whether it had
    /// to be created.
    pub fn get_or_create(&mut self, service: ServiceKind, addr: &str) -> (r: bool)
        requires
            old(self).wf(),
        ensures
            final(self).wf(),
            final(self).has(service, addr@),
            r == !old(self).has(service, addr@),
            r ==> final(self).pools@.len() == old(self).pools@.len() + 1,
            !r ==> final(self).pools@ == old(self).pools@,
            forall|s: ServiceKind, a: Seq<char>| !(s == service && a == addr@) ==> (#[trigger] final(self).has(s, a) <==> old(self).has(s, a)),
    {
        match self.position(service, addr) {
            Some(_) => false,
            None => {
                let ghost before = self.pools@;
                self.pools.push(PoolKey { service, addr: String::from_str(addr) });
                proof {
                    let n = before.len() as int;
                    assert(is_pool(self.pools@[n], service, addr@));
                    assert forall|i: int, j: int|
                        0 <= i < j < self.pools@.len() implies !is_pool(#[trigger] self.pools@[i], self.pools@[j].service, #[trigger] self.pools@[j].addr@) by {
                        if j == n {
                            assert(self.pools@[i] == before[i]);
                        } else {
                            assert(self.pools@[i] == before[i] && self.pools@[j] == before[j]);
                        }
                    }
                    assert forall|s: ServiceKind, a: Seq<char>| !(s == service && a == addr@) implies (#[trigger] self.has(s, a) <==> old(self).has(s, a)) by {
                        if self.has(s, a) {
                            let i = choose|i: int| 0 <= i < self.pools@.len() && is_pool(#[trigger] self.pools@[i], s, a);
                            assert(i != n);
                            assert(self.pools@[i] == before[i]);
                        }
                        if old(self).has(s, a) {
                            let i = choose|i: int| 0 <= i < before.len() && is_pool(#[trigger] before[i], s, a);
                            assert(self.pools@[i] == before[i]);
                        }
                    }
                }
                true
            },
        }
    }

    /// Drops the pool of `service` at `addr`; returns whether there was one.
    pub fn clear_pool(&mut self, service: ServiceKind, addr: &str) -> (r: bool)
        requires
            old(self).wf(),
        ensures
            final(self).wf(),
            r == old(self).has(service, addr@),
            !final(self).has(service, addr@),
            forall|s: ServiceKind, a: Seq<char>| !(s == service && a == addr@) ==> (#[trigger] final(self).has(s, a) <==> old(self).has(s, a)),
    {
        match self.position(service, addr) {
            None => false,
            Some(p) => {
                let ghost before = self.pools@;
                self.pools.remove(p);
                proof {
                    assert forall|i: int| 0 <= i < self.pools@.len() implies self.pools@[i] == before[if i < p { i } else { i + 1 }] by {}
                    assert forall|i: int, j: int|
                        0 <= i < j < self.pools@.len() implies !is_pool(#[trigger] self.pools@[i], self.pools@[j].service, #[trigger] self.pools@[j].addr@) by {
                        let oi = if i < p { i } else { i + 1 };
                        let oj = if j < p { j } else { j + 1 };
                        assert(self.pools@[i] == before[oi] && self.pools@[j] == before[oj]);
                    }
                    assert forall|i: int| 0 <= i < self.pools@.len() implies !is_pool(#[trigger] self.pools@[i], service, addr@) by {
                        let oi = if i < p { i } else { i + 1 };
                        assert(self.pools@[i] == before[oi]);
                        if oi < p {
                            assert(!is_pool(before[oi], before[p as int].service, before[p as int].addr@));
                        } else {
                            assert(!is_pool(before[p as int], before[oi].service, before[oi].addr@));
                        }
                    }
                    assert forall|s: ServiceKind, a: Seq<char>| !(s == service && a == addr@) implies (#[trigger] self.has(s, a) <==> old(self).has(s, a)) by {
                        if self.has(s, a) {
                            let i = choose|i: int| 0 <= i < self.pools@.len() && is_pool(#[trigger] self.pools@[i], s, a);
                            let oi = if i < p { i } else { i + 1 };
                            assert(self.pools@[i] == before[oi]);
                        }
                        if old(self).has(s, a) {
                            let i = choose|i: int| 0 <= i < before.len() && is_pool(#[trigger] before[i], s, a);
                            assert(i != p);
                            let ni = if i < p { i } else { i - 1 };
                            assert(self.pools@[ni] == before[i]);
                        }
                    }
                }
                true
            },
        }
    }

    /// Drops the MQTT broker pool of `addr`; returns whether there was one.
    pub fn clear_mqtt_broker_pool(&mut self, addr: &str) -> (r: bool)
        requires
            old(self).wf(),
        ensures
            final(self).wf(),
            r == old(self).has(ServiceKind::BrokerMqtt, addr@),
            !final(self).has(ServiceKind::BrokerMqtt, addr@),
            forall|s: ServiceKind, a: Seq<char>| !(s == ServiceKind::BrokerMqtt && a == addr@) ==> (#[trigger] final(self).has(s, a) <==> old(self).has(s, a)),
    {
        self.clear_pool(ServiceKind::BrokerMqtt, addr)
    }

    /// The number of pools.
    pub fn get_pool_count(&self) -> (r: usize)
        ensures
            r == self.pools@.len(),
    {
        self.pools.len()
    }
}

} // verus!
