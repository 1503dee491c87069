//! The engine: nonce dominance, routing-table recomputation, and edge-log
//! compaction with rehydration.

use routing_core::edge::Edge;
use routing_core::engine::{
    RoutingTableActor, RoutingTableMessages, RoutingTableMessagesResponse,
};
use routing_core::store::Store;
use routing_core::types::PeerId;
use routing_core::{SAVE_PEERS_AFTER_TIME, SAVE_PEERS_MAX_TIME};

fn peer(tag: u8) -> PeerId {
    PeerId::new(vec![tag, 42])
}

/// An unsigned edge with endpoints in canonical order.
fn fake_edge(a: u8, b: u8, nonce: u64) -> Edge {
    let (lo, hi) = if a < b { (a, b) } else { (b, a) };
    Edge::make_fake_edge(peer(lo), peer(hi), nonce)
}

#[test]
fn dominance_keeps_the_larger_nonce() {
    let mut engine = RoutingTableActor::new(peer(0), Store::new());
    let first = engine.process_edges(vec![fake_edge(1, 2, 3)], 100);
    assert!(first.new_edge);
    assert_eq!(first.edges.len(), 1);
    assert_eq!(engine.find_nonce(&(peer(1), peer(2))), 3);

    // An older nonce is silently dropped.
    let stale = engine.process_edges(vec![fake_edge(1, 2, 1)], 101);
    assert!(!stale.new_edge);
    assert_eq!(stale.edges.len(), 0);
    assert_eq!(engine.find_nonce(&(peer(1), peer(2))), 3);

    // An equal nonce is dropped too.
    let equal = engine.process_edges(vec![fake_edge(1, 2, 3)], 102);
    assert!(!equal.new_edge);
    assert_eq!(engine.find_nonce(&(peer(1), peer(2))), 3);

    // A fresher nonce replaces the stored edge.
    let fresh = engine.process_edges(vec![fake_edge(1, 2, 5)], 103);
    assert!(fresh.new_edge);
    assert_eq!(engine.find_nonce(&(peer(1), peer(2))), 5);
}

/// Ingesting two edges of one link in either order ends at the larger nonce.
#[test]
fn batch_order_does_not_matter() {
    let e1 = fake_edge(1, 2, 3);
    let e2 = fake_edge(1, 2, 6);

    let mut one = RoutingTableActor::new(peer(0), Store::new());
    one.process_edges(vec![e1.clone(), e2.clone()], 10);
    let mut two = RoutingTableActor::new(peer(0), Store::new());
    two.process_edges(vec![e2, e1], 10);

    assert_eq!(one.find_nonce(&(peer(1), peer(2))), 6);
    assert_eq!(two.find_nonce(&(peer(1), peer(2))), 6);
}

#[test]
fn removal_disconnects_the_pair() {
    let source = peer(0);
    let mut engine = RoutingTableActor::new(source.clone(), Store::new());
    engine.process_edges(vec![fake_edge(0, 1, 1)], 10);
    let out = engine.update(false, false, SAVE_PEERS_AFTER_TIME, 10);
    assert!(out.is_empty());
    let forwarding = engine.forwarding_snapshot();
    assert_eq!(forwarding.len(), 1);
    assert_eq!(forwarding[0].0.key, peer(1).key);

    engine.process_edges(vec![fake_edge(0, 1, 2)], 11);
    engine.update(false, false, SAVE_PEERS_AFTER_TIME, 11);
    assert!(engine.forwarding_snapshot().is_empty());
}

/// Edges among long-unreachable peers move to an archived component, and
/// touching one member brings them all back with their nonces.
#[test]
fn compaction_round_trip() {
    let mut engine = RoutingTableActor::new(peer(0), Store::new());
    // A link not incident to this node, so its peers stay unreachable.
    engine.process_edges(vec![fake_edge(5, 6, 9)], 1_000);
    assert_eq!(engine.find_nonce(&(peer(5), peer(6))), 9);

    // Long after, a recomputation with saving allowed archives the link.
    let later = 1_000 + SAVE_PEERS_MAX_TIME + 1;
    let archived = engine.update(true, false, SAVE_PEERS_AFTER_TIME, later);
    assert_eq!(archived.len(), 1);
    assert_eq!(archived[0].nonce, 9);
    assert!(engine.get_edge(peer(5), peer(6)).is_none());
    assert_eq!(engine.get_edges_len(), 0);

    // Touching one member of the component restores every edge of it.
    engine.touch(&peer(5), later + 50);
    let back = engine.get_edge(peer(5), peer(6)).unwrap();
    assert_eq!(back.nonce, 9);
    assert_eq!(engine.get_edges_len(), 1);
}

/// A forced pruning archives stale peers without waiting for the full
/// archival window.
#[test]
fn forced_pruning_archives_early() {
    let mut engine = RoutingTableActor::new(peer(0), Store::new());
    engine.process_edges(vec![fake_edge(5, 6, 1)], 1_000);
    let later = 1_000 + SAVE_PEERS_AFTER_TIME + 1;
    // Not forced: the window has not elapsed, nothing moves.
    let kept = engine.update(true, false, SAVE_PEERS_AFTER_TIME, later);
    assert!(kept.is_empty());
    assert!(engine.get_edge(peer(5), peer(6)).is_some());
    // Forced: the stale link is archived at once.
    let archived = engine.update(true, true, SAVE_PEERS_AFTER_TIME, later);
    assert_eq!(archived.len(), 1);
    assert!(engine.get_edge(peer(5), peer(6)).is_none());
}

#[test]
fn component_numbering_continues_from_the_store() {
    let mut store = Store::new();
    store.set_last_component_nonce(41);
    let mut engine = RoutingTableActor::new(peer(0), store);
    engine.process_edges(vec![fake_edge(5, 6, 1)], 0);
    let archived = engine.update(true, true, 0, SAVE_PEERS_MAX_TIME + 1);
    assert_eq!(archived.len(), 1);
    // The archived component is retrievable again, which means it was filed
    // under the continued numbering rather than overwriting an old one.
    engine.touch(&peer(6), SAVE_PEERS_MAX_TIME + 2);
    assert_eq!(engine.find_nonce(&(peer(5), peer(6))), 1);
}

/// Successive prunings allocate fresh component numbers: archiving twice
/// never clobbers an earlier component, and each archive rehydrates.
#[test]
fn components_number_consecutively() {
    let mut engine = RoutingTableActor::new(peer(0), Store::new());
    engine.process_edges(vec![fake_edge(5, 6, 1)], 0);
    let first = engine.update(true, true, 0, 10);
    assert_eq!(first.len(), 1);
    assert!(engine.get_edge(peer(5), peer(6)).is_none());

    engine.process_edges(vec![fake_edge(7, 8, 3)], 20);
    let second = engine.update(true, true, 0, 30);
    assert_eq!(second.len(), 1);
    assert_eq!(second[0].nonce, 3);

    // Both components come back intact, in either order.
    engine.touch(&peer(7), 40);
    assert_eq!(engine.find_nonce(&(peer(7), peer(8))), 3);
    engine.touch(&peer(6), 50);
    assert_eq!(engine.find_nonce(&(peer(5), peer(6))), 1);
}

#[test]
fn messages_drive_the_engine() {
    let mut engine = RoutingTableActor::new(peer(0), Store::new());
    let resp = engine.handle(
        RoutingTableMessages::AddVerifiedEdges { edges: vec![fake_edge(0, 1, 1)] },
        7,
    );
    match resp {
        RoutingTableMessagesResponse::AddVerifiedEdgesResponse(r) => {
            assert!(r.new_edge);
            assert_eq!(r.added_edges.len(), 1);
        },
        _ => panic!("unexpected response"),
    }

    let resp = engine.handle(RoutingTableMessages::RequestRoutingTable, 8);
    match resp {
        RoutingTableMessagesResponse::RequestRoutingTableResponse { edges_info } => {
            assert_eq!(edges_info.len(), 1);
            assert_eq!(edges_info[0].nonce, 1);
        },
        _ => panic!("unexpected response"),
    }

    let resp = engine.handle(
        RoutingTableMessages::RoutingTableUpdate {
            can_save_edges: true,
            prune_edges: false,
            timeout: SAVE_PEERS_AFTER_TIME,
        },
        9,
    );
    match resp {
        RoutingTableMessagesResponse::RoutingTableUpdateResponse {
            edges_to_remove,
            peer_forwarding,
        } => {
            assert!(edges_to_remove.is_empty());
            assert_eq!(peer_forwarding.len(), 1);
            assert_eq!(peer_forwarding[0].0.key, peer(1).key);
            assert_eq!(peer_forwarding[0].1.len(), 1);
            assert_eq!(peer_forwarding[0].1[0].key, peer(1).key);
        },
        _ => panic!("unexpected response"),
    }

    assert_eq!(engine.peer_id().key, peer(0).key);
    let got = engine.get_edge(peer(1), peer(0)).unwrap();
    assert_eq!(got.nonce, 1);
    engine.remove_edge(&got);
    assert!(engine.get_edge(peer(0), peer(1)).is_none());
}
