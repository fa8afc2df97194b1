//! The correlation table: a TTL-bounded mapping from the 16-bit query id to
//! the originating client and the answers already computed locally. Backed
//! by `ttl_cache::TtlCache`; entries vanish on expiry or eviction, so the
//! contracts state only what holds of every outcome.
use vstd::prelude::*;

use crate::message::DnsResourceRecord;
use crate::message::{Ipv4Address, Ipv6Address, SpecResourceRecord};
use ttl_cache::TtlCache;

verus! {

/// A client's transport address, as plain values.
#[derive(Copy, Clone, Debug, PartialEq, Eq, Structural)]
pub enum HostAddress {
    V4(Ipv4Address),
    V6(Ipv6Address),
}

/// A client endpoint: address and port.
#[derive(Copy, Clone, Debug, PartialEq, Eq, Structural)]
pub struct Endpoint {
    pub host: HostAddress,
    pub port: u16,
}

/// What the table stores per outstanding query id.
#[derive(Debug)]
pub struct CorrelationEntry {
    /// The client the eventual reply is owed to.
    pub client: Endpoint,
    /// The locally synthesized answers to merge into that reply.
    pub answers: Vec<DnsResourceRecord>,
}

/// Mathematical model of a correlation entry.
pub struct SpecCorrelationEntry {
    pub client: Endpoint,
    pub answers: Seq<SpecResourceRecord>,
}

impl View for CorrelationEntry {
    type V = SpecCorrelationEntry;

    open spec fn view(&self) -> SpecCorrelationEntry {
        SpecCorrelationEntry { client: self.client, answers: self.answers.deep_view() }
    }
}

#[verifier::external_type_specification]
#[verifier::external_body]
#[verifier::reject_recursive_types(K)]
#[verifier::reject_recursive_types(V)]
#[verifier::reject_recursive_types(S)]
pub struct ExTtlCache<K: core::cmp::Eq + core::hash::Hash, V, S: core::hash::BuildHasher>(
    TtlCache<K, V, S>,
);

/// The table's concrete shape: a TTL cache keyed by the 16-bit query id.
pub type CorrelationTable = TtlCache<u16, CorrelationEntry>;

/// The entries the cache stores, keyed by query id. Expiry affects what a
/// removal returns, not this map, so the map changes only through the
/// operations below.
pub uninterp spec fn table_map(t: CorrelationTable) -> Map<u16, CorrelationEntry>;

/// The capacity the cache was created with.
pub uninterp spec fn table_capacity(t: CorrelationTable) -> nat;

/// Relies on `ttl_cache::TtlCache::new`: an empty cache holding at most
/// `capacity` entries.
#[verifier::external_body]
pub fn table_new(capacity: usize) -> (t: CorrelationTable)
    ensures
        forall|k: u16| !table_map(t).contains_key(k),
        table_capacity(t) == capacity,
{
    TtlCache::new(capacity)
}

/// Relies on `ttl_cache::TtlCache::insert`: the key now maps to the new
/// value, overwriting any previous entry (with capacity at least one the
/// fresh entry survives the eviction of the oldest entry that a full cache
/// performs); every other key still present was present before with the
/// same value. The call adds the lifetime to the current instant, which
/// panics when the sum is unrepresentable, so the lifetime is kept far
/// below that edge.
#[verifier::external_body]
pub fn table_insert(t: &mut CorrelationTable, id: u16, entry: CorrelationEntry, ttl_secs: u64)
    requires
        ttl_secs <= 0xffff_ffff,
    ensures
        table_capacity(*old(t)) >= 1 ==> table_map(*final(t)).contains_key(id) && table_map(
            *final(t),
        )[id] == entry,
        forall|k: u16|
            table_map(*final(t)).contains_key(k) && k != id ==> table_map(
                *old(t),
            ).contains_key(k) && table_map(*final(t))[k] == table_map(*old(t))[k],
        table_capacity(*final(t)) == table_capacity(*old(t)),
{
    let _ = t.insert(id, entry, core::time::Duration::from_secs(ttl_secs));
}

/// Relies on `ttl_cache::TtlCache::remove`: the mapping for the key is
/// removed; the returned value, when there is one, is exactly the value the
/// key mapped to (an expired entry is removed but not returned, so a `None`
/// says nothing about prior presence); other entries are untouched.
#[verifier::external_body]
pub fn table_take(t: &mut CorrelationTable, id: u16) -> (r: Option<CorrelationEntry>)
    ensures
        table_map(*final(t)) == table_map(*old(t)).remove(id),
        r is Some ==> table_map(*old(t)).contains_key(id) && r->Some_0 == table_map(*old(t))[id],
        table_capacity(*final(t)) == table_capacity(*old(t)),
{
    t.remove(&id)
}

} // verus!
