use network_initializer::assignment::{Assignment, BootPlan, RolePolicy};
use network_initializer::partition::{class_of, Partition, Role};
use network_initializer::registry::{Registry, WiringError};
use network_initializer::topology::{NodeClass, NodeDecl, Topology};

fn roles_of(partition: &Partition, count: usize) -> Vec<Role> {
    (0..count).map(|index| partition.role_at(count, index).unwrap()).collect()
}

fn node(id: u8, class: NodeClass) -> NodeDecl {
    NodeDecl { id, class, neighbors: Vec::new() }
}

fn full_registry() -> Registry {
    let mut tags = vec![Role::Router; 10];
    tags.extend([
        Role::ChatClient,
        Role::MediaClient,
        Role::TextServer,
        Role::MediaServer,
        Role::CommunicationServer,
    ]);
    Registry::new(tags)
}

#[test]
fn clients_split_in_halves_with_the_odd_one_a_media_client() {
    let (c, m) = (Role::ChatClient, Role::MediaClient);
    let clients = Partition::clients();
    assert_eq!(roles_of(&clients, 0), Vec::<Role>::new());
    assert_eq!(roles_of(&clients, 1), vec![m]);
    assert_eq!(roles_of(&clients, 2), vec![c, m]);
    assert_eq!(roles_of(&clients, 3), vec![c, m, m]);
    assert_eq!(roles_of(&clients, 4), vec![c, c, m, m]);
    assert_eq!(roles_of(&clients, 5), vec![c, c, m, m, m]);
}

#[test]
fn servers_split_in_thirds_with_the_remainder_text_servers() {
    let (t, m, c) = (Role::TextServer, Role::MediaServer, Role::CommunicationServer);
    let servers = Partition::servers();
    assert_eq!(roles_of(&servers, 1), vec![t]);
    assert_eq!(roles_of(&servers, 2), vec![t, t]);
    assert_eq!(roles_of(&servers, 3), vec![t, m, c]);
    assert_eq!(roles_of(&servers, 4), vec![t, t, m, c]);
    assert_eq!(roles_of(&servers, 5), vec![t, t, t, m, c]);
    assert_eq!(roles_of(&servers, 6), vec![t, t, m, m, c, c]);
    assert_eq!(roles_of(&servers, 7), vec![t, t, t, m, m, c, c]);
}

#[test]
fn every_routing_node_is_a_router() {
    assert_eq!(roles_of(&Partition::routers(), 4), vec![Role::Router; 4]);
}

#[test]
fn no_role_past_the_end_of_the_sequence() {
    let servers = Partition::servers();
    assert_eq!(servers.role_at(3, 3), None);
    assert_eq!(servers.role_at(0, 0), None);
    assert_eq!(servers.role_at(usize::MAX, usize::MAX), None);
    assert_eq!(servers.role_at(usize::MAX, usize::MAX - 1), Some(Role::CommunicationServer));
    assert_eq!(servers.role_at(usize::MAX, 0), Some(Role::TextServer));
}

#[test]
fn surplus_may_go_to_a_middle_group() {
    let (t, m, c) = (Role::TextServer, Role::MediaServer, Role::CommunicationServer);
    let partition = Partition::new(NodeClass::Server, vec![t, m, c], 1).unwrap();
    assert_eq!(roles_of(&partition, 5), vec![t, m, m, m, c]);
    assert_eq!(roles_of(&partition, 2), vec![m, m]);
}

#[test]
fn a_role_listed_twice_gets_two_shares() {
    let (c, m) = (Role::ChatClient, Role::MediaClient);
    let partition = Partition::new(NodeClass::Client, vec![c, c, m], 2).unwrap();
    assert_eq!(roles_of(&partition, 6), vec![c, c, c, c, m, m]);
    assert_eq!(roles_of(&partition, 7), vec![c, c, c, c, m, m, m]);
}

#[test]
fn partition_is_order_preserving() {
    let (t, m, c) = (Role::TextServer, Role::MediaServer, Role::CommunicationServer);
    let order = |role: Role| match role {
        Role::TextServer => 0,
        Role::MediaServer => 1,
        Role::CommunicationServer => 2,
        _ => unreachable!(),
    };
    for surplus in 0..3 {
        let partition = Partition::new(NodeClass::Server, vec![t, m, c], surplus).unwrap();
        for count in 0..40 {
            let roles = roles_of(&partition, count);
            for pair in roles.windows(2) {
                assert!(order(pair[0]) <= order(pair[1]));
            }
            let share = count / 3;
            for (group, role) in [t, m, c].into_iter().enumerate() {
                let size = roles.iter().filter(|r| **r == role).count();
                let expected = if group == surplus { share + count % 3 } else { share };
                assert_eq!(size, expected);
            }
        }
    }
}

#[test]
fn partition_needs_a_role_a_surplus_group_and_roles_of_its_class() {
    assert!(Partition::new(NodeClass::Client, Vec::new(), 0).is_none());
    assert!(Partition::new(NodeClass::Client, vec![Role::ChatClient], 1).is_none());
    let mixed = vec![Role::ChatClient, Role::TextServer];
    assert!(Partition::new(NodeClass::Client, mixed, 0).is_none());
    assert!(Partition::new(NodeClass::Client, vec![Role::ChatClient], 0).is_some());
}

#[test]
fn roles_belong_to_classes() {
    assert_eq!(class_of(Role::Router), NodeClass::Router);
    assert_eq!(class_of(Role::ChatClient), NodeClass::Client);
    assert_eq!(class_of(Role::MediaClient), NodeClass::Client);
    assert_eq!(class_of(Role::TextServer), NodeClass::Server);
    assert_eq!(class_of(Role::MediaServer), NodeClass::Server);
    assert_eq!(class_of(Role::CommunicationServer), NodeClass::Server);
    assert_eq!(Partition::servers().node_class(), NodeClass::Server);
}

#[test]
fn policy_wants_each_partition_for_its_own_class() {
    assert!(RolePolicy::new(Partition::routers(), Partition::clients(), Partition::servers())
        .is_some());
    assert!(RolePolicy::new(Partition::routers(), Partition::servers(), Partition::clients())
        .is_none());
    let policy = RolePolicy::standard();
    assert_eq!(policy.partition(NodeClass::Client).node_class(), NodeClass::Client);
}

#[test]
fn registry_resolves_by_role_and_ordinal() {
    let registry = Registry::new(vec![
        Role::Router,
        Role::ChatClient,
        Role::Router,
        Role::TextServer,
        Role::Router,
    ]);
    assert_eq!(registry.len(), 5);
    assert_eq!(registry.resolve(Role::Router, 0), Ok(0));
    assert_eq!(registry.resolve(Role::Router, 1), Ok(2));
    assert_eq!(registry.resolve(Role::Router, 2), Ok(4));
    assert_eq!(registry.resolve(Role::ChatClient, 0), Ok(1));
    assert_eq!(registry.resolve(Role::TextServer, 0), Ok(3));
    assert_eq!(registry.tag(2), Some(Role::Router));
    assert_eq!(registry.tag(5), None);
}

#[test]
fn registry_miss_is_variant_not_found() {
    let registry = Registry::new(vec![Role::Router, Role::ChatClient]);
    assert_eq!(
        registry.resolve(Role::Router, 1),
        Err(WiringError::VariantNotFound { role: Role::Router, ordinal: 1 })
    );
    assert_eq!(
        registry.resolve(Role::MediaServer, 0),
        Err(WiringError::VariantNotFound { role: Role::MediaServer, ordinal: 0 })
    );
    assert_eq!(
        Registry::new(Vec::new()).resolve(Role::Router, 0),
        Err(WiringError::VariantNotFound { role: Role::Router, ordinal: 0 })
    );
}

#[test]
fn plan_assigns_roles_by_position_within_the_class() {
    let decls = vec![
        node(20, NodeClass::Server),
        node(1, NodeClass::Router),
        node(30, NodeClass::Client),
        node(21, NodeClass::Server),
        node(2, NodeClass::Router),
        node(31, NodeClass::Client),
        node(22, NodeClass::Server),
        node(32, NodeClass::Client),
    ];
    let topology = Topology::new(decls, 0).unwrap();
    let plan = BootPlan::new(&topology, &RolePolicy::standard(), &full_registry()).unwrap();
    let expected = vec![
        Assignment { id: 20, role: Role::TextServer, constructor: 12 },
        Assignment { id: 1, role: Role::Router, constructor: 0 },
        Assignment { id: 30, role: Role::ChatClient, constructor: 10 },
        Assignment { id: 21, role: Role::MediaServer, constructor: 13 },
        Assignment { id: 2, role: Role::Router, constructor: 1 },
        Assignment { id: 31, role: Role::MediaClient, constructor: 11 },
        Assignment { id: 22, role: Role::CommunicationServer, constructor: 14 },
        Assignment { id: 32, role: Role::MediaClient, constructor: 11 },
    ];
    assert_eq!(plan.entries(), &expected);
}

#[test]
fn planning_twice_gives_the_same_plan() {
    let decls = || -> Vec<NodeDecl> {
        (0..30u8)
            .map(|id| {
                node(
                    id,
                    match id % 3 {
                        0 => NodeClass::Router,
                        1 => NodeClass::Client,
                        _ => NodeClass::Server,
                    },
                )
            })
            .collect()
    };
    let policy = RolePolicy::standard();
    let registry = full_registry();
    let first = BootPlan::new(&Topology::new(decls(), 10).unwrap(), &policy, &registry).unwrap();
    let second = BootPlan::new(&Topology::new(decls(), 10).unwrap(), &policy, &registry).unwrap();
    assert_eq!(first.entries(), second.entries());
    assert_eq!(first.entries().len(), 30);
}

#[test]
fn each_router_takes_the_router_constructor_of_its_position() {
    let decls: Vec<NodeDecl> = (0..10u8).map(|id| node(100 + id, NodeClass::Router)).collect();
    let topology = Topology::new(decls, 10).unwrap();
    let registry = Registry::new(
        [
            vec![Role::TextServer],
            vec![Role::Router; 5],
            vec![Role::ChatClient],
            vec![Role::Router; 5],
        ]
        .concat(),
    );
    let plan = BootPlan::new(&topology, &RolePolicy::standard(), &registry).unwrap();
    let constructors: Vec<usize> = plan.entries().iter().map(|a| a.constructor).collect();
    assert_eq!(constructors, vec![1, 2, 3, 4, 5, 7, 8, 9, 10, 11]);
}

#[test]
fn more_routers_than_router_constructors_is_variant_not_found() {
    let decls: Vec<NodeDecl> = (0..11u8).map(|id| node(id, NodeClass::Router)).collect();
    let topology = Topology::new(decls, 10).unwrap();
    let error = BootPlan::new(&topology, &RolePolicy::standard(), &full_registry()).unwrap_err();
    assert_eq!(error, WiringError::VariantNotFound { role: Role::Router, ordinal: 10 });
}

#[test]
fn role_without_constructor_is_variant_not_found() {
    let decls = vec![node(1, NodeClass::Router), node(2, NodeClass::Client)];
    let topology = Topology::new(decls, 1).unwrap();
    let registry = Registry::new(vec![Role::Router, Role::ChatClient]);
    let error = BootPlan::new(&topology, &RolePolicy::standard(), &registry).unwrap_err();
    assert_eq!(error, WiringError::VariantNotFound { role: Role::MediaClient, ordinal: 0 });
}

#[test]
fn first_node_without_constructor_is_reported() {
    let decls = vec![
        node(1, NodeClass::Server),
        node(2, NodeClass::Router),
        node(3, NodeClass::Router),
    ];
    let topology = Topology::new(decls, 1).unwrap();
    let registry = Registry::new(vec![Role::Router]);
    let error = BootPlan::new(&topology, &RolePolicy::standard(), &registry).unwrap_err();
    assert_eq!(error, WiringError::VariantNotFound { role: Role::TextServer, ordinal: 0 });
}

#[test]
fn clients_follow_the_half_rule_for_every_count() {
    let clients = Partition::clients();
    for count in 0..60usize {
        let half = count / 2;
        for index in 0..count {
            let expected = if index < half { Role::ChatClient } else { Role::MediaClient };
            assert_eq!(clients.role_at(count, index), Some(expected));
        }
    }
}

#[test]
fn servers_follow_the_counting_down_rule_for_every_count() {
    let servers = Partition::servers();
    for len in 0..60usize {
        let third = len / 3;
        let mut count = len;
        for index in 0..len {
            let expected = if count > third * 2 {
                Role::TextServer
            } else if count > third {
                Role::MediaServer
            } else {
                Role::CommunicationServer
            };
            assert_eq!(servers.role_at(len, index), Some(expected));
            count -= 1;
        }
    }
}

#[test]
fn realized_network_lists_every_node_with_role_and_neighbors() {
    let decls = vec![
        NodeDecl { id: 1, class: NodeClass::Router, neighbors: vec![2, 2, 3] },
        NodeDecl { id: 2, class: NodeClass::Router, neighbors: vec![1] },
        NodeDecl { id: 3, class: NodeClass::Client, neighbors: vec![1] },
        NodeDecl { id: 4, class: NodeClass::Server, neighbors: vec![] },
    ];
    let topology = Topology::new(decls, 2).unwrap();
    let plan = BootPlan::new(&topology, &RolePolicy::standard(), &full_registry()).unwrap();
    let listed = plan.realized(&topology).unwrap();
    let shown: Vec<(u8, Role, Vec<u8>)> =
        listed.into_iter().map(|n| (n.id, n.role, n.neighbors)).collect();
    assert_eq!(
        shown,
        vec![
            (1, Role::Router, vec![2, 3]),
            (2, Role::Router, vec![1]),
            (3, Role::MediaClient, vec![1]),
            (4, Role::TextServer, vec![]),
        ]
    );
}

#[test]
fn realized_network_wants_the_plan_of_the_topology() {
    let topology = Topology::new(vec![node(1, NodeClass::Router)], 1).unwrap();
    let other = Topology::new(vec![node(2, NodeClass::Router)], 1).unwrap();
    let longer =
        Topology::new(vec![node(1, NodeClass::Router), node(2, NodeClass::Router)], 1).unwrap();
    let plan = BootPlan::new(&topology, &RolePolicy::standard(), &full_registry()).unwrap();
    assert!(plan.realized(&topology).is_some());
    assert!(plan.realized(&other).is_none());
    assert!(plan.realized(&longer).is_none());
}
