//! The in-memory graph: adjacency bookkeeping and next-hop computation.

use routing_core::graph::Graph;
use routing_core::types::PeerId;

/// A peer identity from a distinguishing byte.
fn peer(tag: u8) -> PeerId {
    PeerId::new(vec![tag, 1, 2, 3])
}

/// Whether the computed next-hop table equals the expected one, ignoring the
/// order of entries and the order within each next-hop list.
fn expected_routing_tables(
    got: Vec<(PeerId, Vec<PeerId>)>,
    want: Vec<(PeerId, Vec<PeerId>)>,
) -> bool {
    if got.len() != want.len() {
        return false;
    }
    for (target, hops) in &want {
        let mut found = false;
        for (g_target, g_hops) in &got {
            if g_target.key == target.key {
                if g_hops.len() != hops.len() {
                    return false;
                }
                for h in hops {
                    if !g_hops.iter().any(|x| x.key == h.key) {
                        return false;
                    }
                }
                found = true;
            }
        }
        if !found {
            return false;
        }
    }
    true
}

#[test]
fn graph_contains_edge() {
    let source = peer(0);
    let node0 = peer(1);
    let node1 = peer(2);

    let mut graph = Graph::new(source.clone());

    assert_eq!(graph.contains_edge(&source, &node0), false);
    assert_eq!(graph.contains_edge(&source, &node1), false);
    assert_eq!(graph.contains_edge(&node0, &node1), false);
    assert_eq!(graph.contains_edge(&node1, &node0), false);

    graph.add_edge(node0.clone(), node1.clone());

    assert_eq!(graph.contains_edge(&source, &node0), false);
    assert_eq!(graph.contains_edge(&source, &node1), false);
    assert_eq!(graph.contains_edge(&node0, &node1), true);
    assert_eq!(graph.contains_edge(&node1, &node0), true);

    graph.remove_edge(&node1, &node0);

    assert_eq!(graph.contains_edge(&node0, &node1), false);
    assert_eq!(graph.contains_edge(&node1, &node0), false);
}

#[test]
fn graph_distance0() {
    let source = peer(0);
    let node0 = peer(1);

    let mut graph = Graph::new(source.clone());
    graph.add_edge(source.clone(), node0.clone());
    graph.remove_edge(&source, &node0);
    graph.add_edge(source.clone(), node0.clone());

    assert!(expected_routing_tables(
        graph.calculate_distance(),
        vec![(node0.clone(), vec![node0.clone()])],
    ));
}

#[test]
fn graph_distance1() {
    let source = peer(0);
    let nodes: Vec<_> = (1..4).map(peer).collect();

    let mut graph = Graph::new(source.clone());

    graph.add_edge(nodes[0].clone(), nodes[1].clone());
    graph.add_edge(nodes[2].clone(), nodes[1].clone());
    graph.add_edge(nodes[1].clone(), nodes[2].clone());

    assert!(expected_routing_tables(graph.calculate_distance(), vec![]));
}

#[test]
fn graph_distance2() {
    let source = peer(0);
    let nodes: Vec<_> = (1..4).map(peer).collect();

    let mut graph = Graph::new(source.clone());

    graph.add_edge(nodes[0].clone(), nodes[1].clone());
    graph.add_edge(nodes[2].clone(), nodes[1].clone());
    graph.add_edge(nodes[1].clone(), nodes[2].clone());
    graph.add_edge(source.clone(), nodes[0].clone());

    assert!(expected_routing_tables(
        graph.calculate_distance(),
        vec![
            (nodes[0].clone(), vec![nodes[0].clone()]),
            (nodes[1].clone(), vec![nodes[0].clone()]),
            (nodes[2].clone(), vec![nodes[0].clone()]),
        ],
    ));
}

#[test]
fn graph_distance3() {
    let source = peer(0);
    let nodes: Vec<_> = (1..4).map(peer).collect();

    let mut graph = Graph::new(source.clone());

    graph.add_edge(nodes[0].clone(), nodes[1].clone());
    graph.add_edge(nodes[2].clone(), nodes[1].clone());
    graph.add_edge(nodes[0].clone(), nodes[2].clone());
    graph.add_edge(source.clone(), nodes[0].clone());
    graph.add_edge(source.clone(), nodes[1].clone());

    assert!(expected_routing_tables(
        graph.calculate_distance(),
        vec![
            (nodes[0].clone(), vec![nodes[0].clone()]),
            (nodes[1].clone(), vec![nodes[1].clone()]),
            (nodes[2].clone(), vec![nodes[0].clone(), nodes[1].clone()]),
        ],
    ));
}

/// A three-wide, two-deep lattice under the source, plus one disconnected
/// link: every node of the lattice routes through the source's three
/// neighbors, and the disconnected pair does not appear.
#[test]
fn graph_distance4() {
    let source = peer(0);
    let nodes: Vec<_> = (1..12).map(peer).collect();

    let mut graph = Graph::new(source.clone());

    for i in 0..3 {
        graph.add_edge(source.clone(), nodes[i].clone());
    }

    for level in 0..2 {
        for i in 0..3 {
            for j in 0..3 {
                graph.add_edge(nodes[level * 3 + i].clone(), nodes[level * 3 + 3 + j].clone());
            }
        }
    }

    // A link no path from the source reaches.
    graph.add_edge(nodes[9].clone(), nodes[10].clone());

    let mut next_hops: Vec<_> = (0..3).map(|i| (nodes[i].clone(), vec![nodes[i].clone()])).collect();
    let target: Vec<_> = (0..3).map(|i| nodes[i].clone()).collect();

    for i in 3..9 {
        next_hops.push((nodes[i].clone(), target.clone()));
    }

    assert!(expected_routing_tables(graph.calculate_distance(), next_hops));
}
