//! Routing core of a peer-to-peer overlay: signed link records with a
//! nonce-based add/remove protocol, a compact in-memory graph with
//! multi-parent BFS next-hop computation, a time-bounded route-back cache,
//! account announcements, and edge-log compaction to a key/value store.

pub mod assoc;
pub mod bytes_util;
pub mod cache;
pub mod crypto;
pub mod edge;
pub mod engine;
pub mod graph;
pub mod route_back;
pub mod routing_table;
pub mod store;
pub mod types;

use vstd::prelude::*;

verus! {

/// Capacity of the account-announcement cache.
pub const ANNOUNCE_ACCOUNT_CACHE_SIZE: usize = 10_000;
/// Capacity of the route-back cache.
pub const ROUTE_BACK_CACHE_SIZE: u64 = 100_000;
/// Age in milliseconds after which a route-back entry may be evicted.
pub const ROUTE_BACK_CACHE_EVICT_TIMEOUT: u64 = 120_000;
/// How many stale route-back entries one insertion sweeps out at most.
pub const ROUTE_BACK_CACHE_REMOVE_BATCH: u64 = 100;
/// Capacity of each ping/pong bookkeeping cache.
pub const PING_PONG_CACHE_SIZE: usize = 1_000;
/// Largest spread of round-robin nonces tolerated before rebalancing.
pub const ROUND_ROBIN_MAX_NONCE_DIFFERENCE_ALLOWED: u64 = 10;
/// Capacity of the round-robin nonce cache.
pub const ROUND_ROBIN_NONCE_CACHE_SIZE: usize = 10_000;
/// Edges are compacted to disk once some peer has been unreachable this long (seconds).
pub const SAVE_PEERS_MAX_TIME: u64 = 7_200;
/// Peers unreachable this long (seconds) are candidates for compaction.
pub const SAVE_PEERS_AFTER_TIME: u64 = 3_600;
/// The graph aggregates shortest-path parents over at most this many direct neighbors.
pub const MAX_NUM_PEERS: usize = 128;

} // verus!
