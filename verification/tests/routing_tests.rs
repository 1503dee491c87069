//! The routing table: round-robin forwarding, route-back pairing, account
//! announcements, and ping/pong bookkeeping.

use routing_core::assoc::ByteKeyMap;
use routing_core::route_back::RouteBackCache;
use routing_core::routing_table::RoutingTable;
use routing_core::store::Store;
use routing_core::types::{
    AccountId, AnnounceAccount, CryptoHash, FindRouteError, PeerId, PeerIdOrHash, Ping, Pong,
};

fn peer(tag: u8) -> PeerId {
    PeerId::new(vec![tag, 9, 9])
}

fn hash(tag: u8) -> CryptoHash {
    CryptoHash::new(vec![tag; 32])
}

fn announcement(account: &str, p: PeerId, epoch: u8) -> AnnounceAccount {
    AnnounceAccount {
        account_id: AccountId::new(account.as_bytes().to_vec()),
        peer_id: p,
        epoch_id: hash(epoch),
        signature: vec![0u8; 65],
    }
}

/// A table whose forwarding map routes `dest` through the given hops.
fn table_with_route(dest: &PeerId, hops: Vec<PeerId>) -> RoutingTable {
    let mut rt = RoutingTable::new(Store::new());
    let mut pf: ByteKeyMap<Vec<PeerId>> = ByteKeyMap::new();
    pf.insert(dest.key.clone(), hops);
    rt.set_peer_forwarding(pf);
    rt
}

#[test]
fn find_route_unknown_peer() {
    let mut rt = RoutingTable::new(Store::new());
    let dest = peer(1);
    assert!(matches!(
        rt.find_route_from_peer_id(&dest),
        Err(FindRouteError::PeerNotFound)
    ));
}

#[test]
fn find_route_disconnected_peer() {
    let dest = peer(1);
    let mut rt = table_with_route(&dest, vec![]);
    assert!(matches!(
        rt.find_route_from_peer_id(&dest),
        Err(FindRouteError::Disconnected)
    ));
}

/// With two equally loaded candidates, consecutive routings alternate,
/// starting from the lexicographically smaller key.
#[test]
fn round_robin_alternates() {
    let dest = peer(9);
    let a = peer(1);
    let b = peer(2);
    let mut rt = table_with_route(&dest, vec![b.clone(), a.clone()]);

    let first = rt.find_route_from_peer_id(&dest).unwrap();
    let second = rt.find_route_from_peer_id(&dest).unwrap();
    let third = rt.find_route_from_peer_id(&dest).unwrap();
    let fourth = rt.find_route_from_peer_id(&dest).unwrap();
    assert_eq!(first.key, a.key);
    assert_eq!(second.key, b.key);
    assert_eq!(third.key, a.key);
    assert_eq!(fourth.key, b.key);
}

/// Over six routings with two stable candidates, each candidate is chosen
/// exactly three times.
#[test]
fn round_robin_is_fair() {
    let dest = peer(9);
    let a = peer(1);
    let b = peer(2);
    let mut rt = table_with_route(&dest, vec![a.clone(), b.clone()]);

    let mut count_a = 0;
    let mut count_b = 0;
    for _ in 0..6 {
        let hop = rt.find_route_from_peer_id(&dest).unwrap();
        if hop.key == a.key {
            count_a += 1;
        } else if hop.key == b.key {
            count_b += 1;
        } else {
            panic!("selected a peer outside the candidate set");
        }
    }
    assert_eq!(count_a, 3);
    assert_eq!(count_b, 3);
}

/// A route-back entry answers exactly one lookup.
#[test]
fn route_back_is_consumed() {
    let mut rt = RoutingTable::new(Store::new());
    let p = peer(3);
    rt.add_route_back(hash(1), p.clone(), 50);
    assert!(rt.compare_route_back(hash(1), &p));
    assert!(!rt.compare_route_back(hash(2), &p));

    let got = rt.find_route(&PeerIdOrHash::Hash(hash(1))).unwrap();
    assert_eq!(got.key, p.key);
    assert!(matches!(
        rt.find_route(&PeerIdOrHash::Hash(hash(1))),
        Err(FindRouteError::RouteBackNotFound)
    ));
}

/// An entry older than the eviction timeout is swept out by a later
/// insertion and no longer answers lookups.
#[test]
fn route_back_times_out() {
    let mut cache = RouteBackCache::new(10, 1_000, 4);
    cache.insert(hash(1), peer(1), 0);
    assert!(cache.get(&hash(1)).is_some());
    cache.insert(hash(2), peer(2), 1_000);
    assert!(cache.get(&hash(1)).is_none());
    assert!(cache.get(&hash(2)).is_some());
}

/// A full cache evicts its oldest entry to admit a new fingerprint.
#[test]
fn route_back_capacity_evicts_oldest() {
    let mut cache = RouteBackCache::new(2, 1_000_000, 4);
    cache.insert(hash(1), peer(1), 10);
    cache.insert(hash(2), peer(2), 20);
    cache.insert(hash(3), peer(3), 30);
    assert!(cache.get(&hash(1)).is_none());
    assert!(cache.get(&hash(2)).is_some());
    assert!(cache.get(&hash(3)).is_some());
    assert_eq!(cache.remove(&hash(2)).unwrap().key, peer(2).key);
    assert!(cache.get(&hash(2)).is_none());
}

#[test]
fn announcements_round_trip() {
    let mut rt = RoutingTable::new(Store::new());
    let owner = peer(7);
    let ann = announcement("aurora", owner.clone(), 4);
    rt.add_account(ann.clone());

    let got = rt.get_announce(&AccountId::new(b"aurora".to_vec())).unwrap();
    assert_eq!(got.peer_id.key, owner.key);
    assert_eq!(got.epoch_id.bytes, hash(4).bytes);

    assert!(rt.contains_account(&announcement("aurora", owner.clone(), 4)));
    assert!(!rt.contains_account(&announcement("aurora", owner.clone(), 5)));
    assert!(!rt.contains_account(&announcement("nobody", owner.clone(), 4)));

    let who = rt.account_owner(&AccountId::new(b"aurora".to_vec())).unwrap();
    assert_eq!(who.key, owner.key);
    assert!(matches!(
        rt.account_owner(&AccountId::new(b"nobody".to_vec())),
        Err(FindRouteError::AccountNotFound)
    ));

    assert_eq!(rt.get_announce_accounts_size(), 1);
    let keys = rt.get_accounts_keys();
    assert_eq!(keys.len(), 1);
    assert_eq!(keys[0].name, b"aurora".to_vec());
    let anns = rt.get_announce_accounts();
    assert_eq!(anns.len(), 1);
    assert_eq!(anns[0].peer_id.key, owner.key);
}

/// An announcement that only the store knows is found and re-cached.
#[test]
fn announcement_loads_from_store() {
    let mut store = Store::new();
    let owner = peer(8);
    store.set_announcement(b"zeta".to_vec(), announcement("zeta", owner.clone(), 1));
    let mut rt = RoutingTable::new(store);
    let got = rt.get_announce(&AccountId::new(b"zeta".to_vec())).unwrap();
    assert_eq!(got.peer_id.key, owner.key);
}

#[test]
fn ping_nonces_advance() {
    let mut rt = RoutingTable::new(Store::new());
    let p = peer(1);
    assert_eq!(rt.get_ping(p.clone()), 0);
    assert_eq!(rt.get_ping(p.clone()), 1);
    assert_eq!(rt.get_ping(p.clone()), 2);
    assert_eq!(rt.get_ping(peer(2)), 0);
}

#[test]
fn pong_answers_waiting_ping() {
    let mut rt = RoutingTable::new(Store::new());
    let target = peer(5);
    rt.sending_ping(11, target.clone(), 1_000);
    let rtt = rt.add_pong(Pong { nonce: 11, source: target.clone() }, 1_250);
    assert_eq!(rtt, Some(250));
    // The entry was consumed.
    let again = rt.add_pong(Pong { nonce: 11, source: target.clone() }, 1_300);
    assert_eq!(again, None);
    // A pong for a nonce never pinged is tallied but unmatched.
    let stray = rt.add_pong(Pong { nonce: 99, source: target.clone() }, 1_400);
    assert_eq!(stray, None);
}

#[test]
fn ping_pong_tallies() {
    let mut rt = RoutingTable::new(Store::new());
    let p = peer(1);
    rt.add_ping(Ping { nonce: 4, source: p.clone() });
    rt.add_ping(Ping { nonce: 4, source: p.clone() });
    rt.add_pong(Pong { nonce: 4, source: p.clone() }, 10);
    let (pings, pongs) = rt.fetch_ping_pong();
    assert_eq!(pings.len(), 1);
    assert_eq!(pings[0].0, 4);
    assert_eq!(pings[0].1 .1, 2);
    assert_eq!(pongs.len(), 1);
    assert_eq!(pongs[0].1 .1, 1);
}

#[test]
fn edge_log_queries() {
    let mut rt = RoutingTable::new(Store::new());
    let a = peer(1);
    let b = peer(2);
    let edge = routing_core::edge::Edge::make_fake_edge(a.clone(), b.clone(), 1);
    rt.add_edge_info(edge.clone());
    let got = rt.get_edge(a.clone(), b.clone()).unwrap();
    assert_eq!(got.nonce, 1);
    let got_rev = rt.get_edge(b.clone(), a.clone()).unwrap();
    assert_eq!(got_rev.nonce, 1);
    rt.remove_edges(&vec![edge]);
    assert!(rt.get_edge(a.clone(), b.clone()).is_none());
}

#[test]
fn info_lists_accounts_and_routes() {
    let dest = peer(9);
    let mut rt = table_with_route(&dest, vec![peer(1)]);
    rt.add_account(announcement("aurora", peer(7), 1));
    let info = rt.info();
    assert_eq!(info.account_peers.len(), 1);
    assert_eq!(info.account_peers[0].0.name, b"aurora".to_vec());
    assert_eq!(info.account_peers[0].1.key, peer(7).key);
    assert_eq!(info.peer_forwarding.len(), 1);
    assert_eq!(info.peer_forwarding[0].0.key, dest.key);
    let reach = rt.reachable_peers();
    assert_eq!(reach.len(), 1);
    assert_eq!(reach[0].key, dest.key);
}
