use network_initializer::topology::{neighbor_set, NodeClass, NodeDecl, Topology, TopologyError};

fn decl(id: u8, class: NodeClass, neighbors: &[u8]) -> NodeDecl {
    NodeDecl { id, class, neighbors: neighbors.to_vec() }
}

fn triangle() -> Vec<NodeDecl> {
    vec![
        decl(1, NodeClass::Router, &[2, 3]),
        decl(2, NodeClass::Router, &[1, 3]),
        decl(3, NodeClass::Router, &[1, 2]),
        decl(4, NodeClass::Client, &[1]),
        decl(5, NodeClass::Server, &[3]),
    ]
}

#[test]
fn valid_network_is_accepted_in_declaration_order() {
    let topology = Topology::new(triangle(), 3).unwrap();
    assert_eq!(topology.len(), 5);
    let ids: Vec<u8> = topology.records().iter().map(|r| r.id).collect();
    assert_eq!(ids, vec![1, 2, 3, 4, 5]);
    assert_eq!(topology.records()[0].class, NodeClass::Router);
    assert_eq!(topology.records()[3].class, NodeClass::Client);
    assert_eq!(topology.records()[4].class, NodeClass::Server);
    assert_eq!(topology.records()[0].neighbors, vec![2, 3]);
    assert_eq!(topology.records()[4].neighbors, vec![3]);
}

#[test]
fn every_neighbor_of_a_valid_network_is_declared() {
    let topology = Topology::new(triangle(), 0).unwrap();
    for record in topology.records() {
        for neighbor in &record.neighbors {
            assert!(topology.contains(*neighbor));
        }
    }
    assert!(!topology.contains(99));
}

#[test]
fn counts_by_class() {
    let topology = Topology::new(triangle(), 0).unwrap();
    assert_eq!(topology.count(NodeClass::Router), 3);
    assert_eq!(topology.count(NodeClass::Client), 1);
    assert_eq!(topology.count(NodeClass::Server), 1);
}

#[test]
fn edge_count_is_the_sum_of_neighbor_set_sizes() {
    let topology = Topology::new(triangle(), 0).unwrap();
    assert_eq!(topology.edge_count(), 8);
}

#[test]
fn empty_network_is_a_topology_when_no_router_is_asked_for() {
    let topology = Topology::new(Vec::new(), 0).unwrap();
    assert_eq!(topology.len(), 0);
    assert_eq!(topology.edge_count(), 0);
}

#[test]
fn undersized_network_is_refused() {
    let error = Topology::new(triangle(), 4).unwrap_err();
    assert_eq!(error, TopologyError::Undersized { routers: 3, minimum: 4 });
}

#[test]
fn network_at_the_minimum_is_accepted() {
    assert!(Topology::new(triangle(), 3).is_ok());
}

#[test]
fn duplicate_identifier_is_refused_at_its_second_declaration() {
    let decls = vec![
        decl(1, NodeClass::Router, &[]),
        decl(2, NodeClass::Router, &[]),
        decl(3, NodeClass::Client, &[]),
        decl(2, NodeClass::Server, &[]),
        decl(1, NodeClass::Server, &[]),
    ];
    let error = Topology::new(decls, 0).unwrap_err();
    assert_eq!(error, TopologyError::DuplicateId { id: 2 });
}

#[test]
fn identifiers_are_shared_across_classes() {
    let decls = vec![decl(7, NodeClass::Router, &[]), decl(7, NodeClass::Client, &[])];
    let error = Topology::new(decls, 0).unwrap_err();
    assert_eq!(error, TopologyError::DuplicateId { id: 7 });
}

#[test]
fn unknown_neighbor_is_refused() {
    let decls = vec![
        decl(1, NodeClass::Router, &[2]),
        decl(2, NodeClass::Router, &[1, 99]),
        decl(3, NodeClass::Client, &[42]),
    ];
    let error = Topology::new(decls, 0).unwrap_err();
    assert_eq!(error, TopologyError::UnknownNeighbor { node: 2, neighbor: 99 });
}

#[test]
fn undersized_is_reported_before_other_offences() {
    let decls = vec![decl(1, NodeClass::Router, &[9]), decl(1, NodeClass::Router, &[])];
    let error = Topology::new(decls, 3).unwrap_err();
    assert_eq!(error, TopologyError::Undersized { routers: 2, minimum: 3 });
}

#[test]
fn duplicate_is_reported_before_unknown_neighbor() {
    let decls = vec![decl(1, NodeClass::Router, &[9]), decl(1, NodeClass::Router, &[])];
    let error = Topology::new(decls, 2).unwrap_err();
    assert_eq!(error, TopologyError::DuplicateId { id: 1 });
}

#[test]
fn neighbor_declared_later_is_known() {
    let decls = vec![decl(1, NodeClass::Router, &[2]), decl(2, NodeClass::Router, &[])];
    let topology = Topology::new(decls, 0).unwrap();
    assert_eq!(topology.records()[0].neighbors, vec![2]);
}

#[test]
fn asymmetric_adjacency_is_kept_as_declared() {
    let decls = vec![decl(1, NodeClass::Router, &[]), decl(2, NodeClass::Client, &[1])];
    let topology = Topology::new(decls, 1).unwrap();
    assert_eq!(topology.records()[0].neighbors, Vec::<u8>::new());
    assert_eq!(topology.records()[1].neighbors, vec![1]);
    assert_eq!(topology.edge_count(), 1);
}

#[test]
fn repeated_neighbors_are_reduced_to_a_set() {
    let decls = vec![
        decl(1, NodeClass::Router, &[3, 2, 3, 2, 3]),
        decl(2, NodeClass::Router, &[]),
        decl(3, NodeClass::Router, &[]),
    ];
    let topology = Topology::new(decls, 0).unwrap();
    assert_eq!(topology.records()[0].neighbors, vec![3, 2]);
    assert_eq!(topology.edge_count(), 2);
}

#[test]
fn neighbor_set_keeps_first_occurrences() {
    assert_eq!(neighbor_set(&vec![5, 1, 5, 9, 1, 0, 255, 255]), vec![5, 1, 9, 0, 255]);
    assert_eq!(neighbor_set(&Vec::new()), Vec::<u8>::new());
}

#[test]
fn a_node_may_list_itself() {
    let decls = vec![decl(1, NodeClass::Router, &[1])];
    let topology = Topology::new(decls, 1).unwrap();
    assert_eq!(topology.records()[0].neighbors, vec![1]);
}

#[test]
fn adjacency_holds_every_node_with_its_neighbor_set() {
    let topology = Topology::new(triangle(), 0).unwrap();
    let adjacency = topology.adjacency();
    assert_eq!(adjacency.len(), 5);
    assert_eq!(adjacency[&1], vec![2, 3]);
    assert_eq!(adjacency[&2], vec![1, 3]);
    assert_eq!(adjacency[&3], vec![1, 2]);
    assert_eq!(adjacency[&4], vec![1]);
    assert_eq!(adjacency[&5], vec![3]);
}

#[test]
fn all_identifiers_can_be_declared() {
    let decls: Vec<NodeDecl> =
        (0..=255u8).map(|id| decl(id, NodeClass::Router, &[id.wrapping_add(1)])).collect();
    let topology = Topology::new(decls, 256).unwrap();
    assert_eq!(topology.len(), 256);
    assert_eq!(topology.edge_count(), 256);
}
