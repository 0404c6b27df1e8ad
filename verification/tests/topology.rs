use drone_net::network::NodeType;
use drone_net::topology::{Node, Topology};

fn expected_nodes() -> Vec<Node> {
    let mut n0 = Node::new(0, NodeType::Client);
    n0.adjacents = [(1, NodeType::Drone), (2, NodeType::Drone)].to_vec();
    let mut n1 = Node::new(1, NodeType::Drone);
    n1.adjacents = [(0, NodeType::Client), (2, NodeType::Drone)].to_vec();
    let mut n2 = Node::new(2, NodeType::Drone);
    n2.adjacents = [(0, NodeType::Client), (1, NodeType::Drone), (3, NodeType::Drone), (4, NodeType::Drone)].to_vec();
    let mut n3 = Node::new(3, NodeType::Drone);
    n3.adjacents = [(2, NodeType::Drone), (4, NodeType::Drone)].to_vec();
    let mut n4 = Node::new(4, NodeType::Drone);
    n4.adjacents = [(3, NodeType::Drone)].to_vec();
    vec![n0, n1, n2, n3, n4]
}

fn learn_two_floods() -> Topology {
    let path_trace = [(1, NodeType::Drone), (2, NodeType::Drone), (3, NodeType::Drone), (4, NodeType::Drone)].to_vec();
    let path_trace_1 = [(2, NodeType::Drone), (4, NodeType::Drone)].to_vec();

    let mut top = Topology::new();

    top.update_topology((0, NodeType::Client), path_trace);
    top.update_topology((0, NodeType::Client), path_trace_1);
    top
}

fn assert_contains_expected(top: &Topology) {
    for expected in expected_nodes() {
        let node = top.get_node(expected.value()).unwrap();
        assert_eq!(expected.value(), node.value());
        assert_eq!(expected.node_type(), node.node_type());
        for adj in expected.adjacents {
            assert_eq!(node.adjacents.contains(&adj), true);
        }
    }
}

#[test]
fn check_up_top() {
    let top = learn_two_floods();
    assert_contains_expected(&top);

    let paths = top.all_shortest_paths(0, 4);
    assert_eq!([[0, 2, 4].to_vec()].to_vec(), paths);
}

#[test]
fn lib_check_up_top() {
    let top = learn_two_floods();
    assert_contains_expected(&top);
}

#[test]
fn update_keeps_learning_order_and_skips_repeats() {
    let top = learn_two_floods();
    let n2 = top.get_node(2).unwrap();
    assert_eq!(
        n2.adjacents,
        vec![(3, NodeType::Drone), (1, NodeType::Drone), (4, NodeType::Drone), (0, NodeType::Client)]
    );
    let n0 = top.get_node(0).unwrap();
    assert_eq!(n0.adjacents, vec![(1, NodeType::Drone), (2, NodeType::Drone)]);
}

#[test]
fn initiator_already_in_trace_is_not_prepended() {
    let mut top = Topology::new();
    top.update_topology((7, NodeType::Client), vec![(7, NodeType::Client), (8, NodeType::Drone)]);
    assert_eq!(top.get_node(7).unwrap().adjacents, vec![(8, NodeType::Drone)]);
    assert_eq!(top.get_node(8).unwrap().adjacents, vec![(7, NodeType::Client)]);
}

#[test]
fn shortest_path_found_and_missing() {
    let top = learn_two_floods();
    assert_eq!(top.shortest_path(0, 4), Some(vec![0, 2, 4]));
    assert_eq!(top.shortest_path(1, 3).map(|p| p.len()), Some(3));
    assert_eq!(top.shortest_path(0, 0), Some(vec![0]));
    assert_eq!(top.shortest_path(0, 9), None);
    assert!(top.get_node(9).is_none());
}

#[test]
fn all_shortest_paths_lists_every_route() {
    let mut top = Topology::new();
    // a square 0-1-3 and 0-2-3
    top.update_topology((0, NodeType::Client), vec![(1, NodeType::Drone), (3, NodeType::Server)]);
    top.update_topology((0, NodeType::Client), vec![(2, NodeType::Drone), (3, NodeType::Server)]);
    let mut paths = top.all_shortest_paths(0, 3);
    paths.sort();
    assert_eq!(paths, vec![vec![0, 1, 3], vec![0, 2, 3]]);
    assert!(top.all_shortest_paths(3, 9).is_empty());
}

#[test]
fn node_links_once() {
    let mut n = Node::new(5, NodeType::Server);
    n.add_adjacents(1, NodeType::Drone);
    n.add_adjacents(1, NodeType::Drone);
    n.add_adjacents(1, NodeType::Client);
    assert_eq!(n.adjacents, vec![(1, NodeType::Drone), (1, NodeType::Client)]);
}

#[test]
fn learning_a_trace_twice_changes_nothing() {
    let trace = vec![(1, NodeType::Drone), (2, NodeType::Drone), (1, NodeType::Drone), (6, NodeType::Server)];
    let mut once = Topology::new();
    once.update_topology((5, NodeType::Client), trace.clone());
    let mut twice = once.clone();
    twice.update_topology((5, NodeType::Client), trace);
    assert_eq!(once, twice);
}

#[test]
fn learnt_links_are_symmetric_pairs_without_repeats() {
    let mut top = learn_two_floods();
    top.update_topology((5, NodeType::Server), [(4, NodeType::Drone), (3, NodeType::Drone), (5, NodeType::Server)].to_vec());
    let kind = |id: u8| match id {
        0 => NodeType::Client,
        5 => NodeType::Server,
        _ => NodeType::Drone,
    };
    for u in 0..6u8 {
        let node = top.get_node(u).unwrap();
        for (i, a) in node.adjacents.iter().enumerate() {
            assert_eq!(a.1, kind(a.0));
            assert!(!node.adjacents[i + 1..].contains(a));
            let back = top.get_node(a.0).unwrap();
            assert!(back.adjacents.contains(&(u, kind(u))));
        }
    }
}
