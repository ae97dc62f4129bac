//! The trusted boundary of the crate: declarations and wrappers for the
//! outside crates the scheduler relies on.  Verus believes the contracts
//! written here without reading the bodies; everything else in the crate is
//! proved against them.
//!
//! The graph store is a `dashmap::DashMap`, a sharded concurrent hash map.
//! Its current entries are named by the uninterpreted function
//! [`map_entries`], and each method the scheduler calls gets a wrapper whose
//! contract says what the call does to those entries.

use vstd::prelude::*;
use crate::graph::{DAGNode, NodeView};

verus! {

#[verifier::external_type_specification]
#[verifier::external_body]
#[verifier::reject_recursive_types(K)]
#[verifier::reject_recursive_types(V)]
#[verifier::reject_recursive_types(S)]
pub struct ExDashMap<K, V, S>(dashmap::DashMap<K, V, S>);

/// The entries a graph map currently holds, keyed by the mathematical view
/// of the `String` key.
pub uninterp spec fn map_entries(m: dashmap::DashMap<String, DAGNode>) -> Map<Seq<char>, NodeView>;

/// Relies on dashmap::DashMap::new: a freshly created map holds no entries.
#[verifier::external_body]
pub fn dash_new() -> (r: dashmap::DashMap<String, DAGNode>)
    ensures
        map_entries(r) =~= Map::empty(),
{
    dashmap::DashMap::new()
}

/// Relies on dashmap::DashMap::insert: stores `v` under `k`, returning the
/// value previously stored under a key equal to `k`, if there was one.  A
/// map's entry count always fits in a `usize`, as its `len` method shows.
#[verifier::external_body]
pub fn dash_insert(
    m: &mut dashmap::DashMap<String, DAGNode>,
    k: String,
    v: DAGNode,
) -> (prev: Option<DAGNode>)
    ensures
        map_entries(*final(m)) == map_entries(*old(m)).insert(k@, v@),
        prev is Some <==> map_entries(*old(m)).dom().contains(k@),
        prev matches Some(p) ==> p@ == map_entries(*old(m))[k@],
        map_entries(*final(m)).dom().len() <= usize::MAX as nat,
{
    m.insert(k, v)
}

/// Relies on dashmap::DashMap::get: looks up the entry stored under a key
/// equal to `k`; the returned guard is cloned into an owned node.
#[verifier::external_body]
pub fn dash_get(m: &dashmap::DashMap<String, DAGNode>, k: &String) -> (r: Option<DAGNode>)
    ensures
        r is Some <==> map_entries(*m).dom().contains(k@),
        r matches Some(n) ==> n@ == map_entries(*m)[k@],
{
    m.get(k).map(|e| e.value().clone())
}

/// The lowercase hexadecimal BLAKE3 digest of the UTF-8 bytes of a string;
/// it is a function of the characters alone.
pub uninterp spec fn blake3_hex_of(s: Seq<char>) -> Seq<char>;

/// Relies on blake3::hash and blake3::Hash::to_hex: the digest of the
/// input bytes, rendered as 64 lowercase hexadecimal digits.
#[verifier::external_body]
pub fn blake3_hex(s: &str) -> (r: String)
    ensures
        r@ == blake3_hex_of(s@),
        r@.len() == 64,
{
    blake3::hash(s.as_bytes()).to_hex().as_str().to_string()
}

/// Relies on std::time::SystemTime::now for the clock reading and on
/// chrono's conversion of a system time to a UTC date (which, unlike
/// chrono's own now, does not fail on a clock set before the Unix epoch),
/// rendered as whole milliseconds since the epoch.  Nothing is promised of
/// the value: the clock is outside the program — a pre-epoch reading gives
/// a negative count whose cast wraps, and a later reading may be smaller
/// than an earlier one.
#[verifier::external_body]
pub fn now_millis() -> u64 {
    let now: chrono::DateTime<chrono::Utc> = std::time::SystemTime::now().into();
    now.timestamp_millis() as u64
}

} // verus!
