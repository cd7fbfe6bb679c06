//! Binds every node of a topology to a role and to the constructor that builds it.
//!
//! The role follows from the node's position among the declared nodes of its
//! class. A routing node takes the router constructor with the same position
//! among the registered router constructors; a node of any other role takes
//! the first constructor registered for that role.

use crate::partition::{group_of, lemma_group_of, lemma_group_of_monotonic, Partition, Role};
use crate::registry::{
    lemma_nth_tagged_unique, lemma_tag_count_prefix, lemma_tag_count_step, nth_tagged, tag_count,
    Registry, WiringError,
};
use crate::topology::{
    class_count, copy_ids, decl_views, lemma_class_count_prefix, lemma_class_count_step,
    NodeClass, NodeId, NodeSpec, Topology,
};
use vstd::prelude::*;

verus! {

/// A partition for each class of node.
#[derive(Debug)]
pub struct RolePolicy {
    routers: Partition,
    clients: Partition,
    servers: Partition,
}

impl RolePolicy {
    /// The partition applied to the nodes of `class`.
    pub closed spec fn of(&self, class: NodeClass) -> Partition {
        match class {
            NodeClass::Router => self.routers,
            NodeClass::Client => self.clients,
            NodeClass::Server => self.servers,
        }
    }

    /// Each class has a well-formed partition of its own.
    pub open spec fn wf(&self) -> bool {
        forall|class: NodeClass|
            (#[trigger] self.of(class)).wf() && self.of(class).class() == class
    }

    /// A policy from one partition per class; `None` when a partition cuts
    /// another class than the one it is given for.
    pub fn new(routers: Partition, clients: Partition, servers: Partition) -> (policy: Option<
        RolePolicy,
    >)
        requires
            routers.wf(),
            clients.wf(),
            servers.wf(),
        ensures
            policy is Some <==> {
                &&& routers.class() == NodeClass::Router
                &&& clients.class() == NodeClass::Client
                &&& servers.class() == NodeClass::Server
            },
            policy matches Some(p) ==> {
                &&& p.wf()
                &&& p.of(NodeClass::Router) == routers
                &&& p.of(NodeClass::Client) == clients
                &&& p.of(NodeClass::Server) == servers
            },
    {
        if routers.node_class() == NodeClass::Router && clients.node_class() == NodeClass::Client
            && servers.node_class() == NodeClass::Server {
            Some(RolePolicy { routers, clients, servers })
        } else {
            None
        }
    }

    /// Every routing node is a router; the first half of the clients are chat
    /// clients and the rest media clients; the last third of the servers are
    /// communication servers, the third before them media servers and the rest
    /// text servers.
    pub fn standard() -> (policy: RolePolicy)
        ensures
            policy.wf(),
            policy.of(NodeClass::Router).roles() == seq![Role::Router],
            policy.of(NodeClass::Router).surplus() == 0,
            policy.of(NodeClass::Client).roles() == seq![Role::ChatClient, Role::MediaClient],
            policy.of(NodeClass::Client).surplus() == 1,
            policy.of(NodeClass::Server).roles() == seq![
                Role::TextServer,
                Role::MediaServer,
                Role::CommunicationServer,
            ],
            policy.of(NodeClass::Server).surplus() == 0,
    {
        RolePolicy {
            routers: Partition::routers(),
            clients: Partition::clients(),
            servers: Partition::servers(),
        }
    }

    /// The partition applied to the nodes of `class`.
    pub fn partition(&self, class: NodeClass) -> (partition: &Partition)
        ensures
            *partition == self.of(class),
    {
        match class {
            NodeClass::Router => &self.routers,
            NodeClass::Client => &self.clients,
            NodeClass::Server => &self.servers,
        }
    }
}

/// What the build decided for one node.
#[derive(Clone, Copy, Debug, PartialEq, Eq, Structural)]
pub struct Assignment {
    pub id: NodeId,
    pub role: Role,
    /// Position of the node's constructor in the registry.
    pub constructor: usize,
}

/// Number of nodes of the same class declared before node `p`.
pub open spec fn rank(nodes: Seq<NodeSpec>, p: int) -> nat {
    class_count(nodes.take(p), nodes[p].class)
}

/// The group of its class's partition that node `p` falls into.
pub open spec fn planned_group(nodes: Seq<NodeSpec>, policy: RolePolicy, p: int) -> nat {
    let partition = policy.of(nodes[p].class);
    group_of(
        class_count(nodes, nodes[p].class),
        partition.roles().len(),
        partition.surplus(),
        rank(nodes, p),
    )
}

/// The role that node `p` runs as.
pub open spec fn planned_role(nodes: Seq<NodeSpec>, policy: RolePolicy, p: int) -> Role {
    policy.of(nodes[p].class).role_of(class_count(nodes, nodes[p].class), rank(nodes, p))
}

/// Which of the constructors registered for its role node `p` takes.
pub open spec fn planned_ordinal(nodes: Seq<NodeSpec>, p: int) -> nat {
    if nodes[p].class == NodeClass::Router {
        rank(nodes, p)
    } else {
        0
    }
}

/// The registry holds the constructor that node `p` takes.
pub open spec fn resolvable(
    nodes: Seq<NodeSpec>,
    policy: RolePolicy,
    tags: Seq<Role>,
    p: int,
) -> bool {
    planned_ordinal(nodes, p) < tag_count(tags, planned_role(nodes, policy, p))
}

/// `a` is what the build decides for node `p`.
pub open spec fn planned(
    nodes: Seq<NodeSpec>,
    policy: RolePolicy,
    tags: Seq<Role>,
    p: int,
    a: Assignment,
) -> bool {
    &&& a.id == nodes[p].id
    &&& a.role == planned_role(nodes, policy, p)
    &&& nth_tagged(tags, a.role, planned_ordinal(nodes, p), a.constructor as int)
}

/// Node `p` is the first, in declaration order, whose constructor the registry lacks.
pub open spec fn first_unresolvable(
    nodes: Seq<NodeSpec>,
    policy: RolePolicy,
    tags: Seq<Role>,
    p: int,
) -> bool {
    &&& 0 <= p < nodes.len()
    &&& !resolvable(nodes, policy, tags, p)
    &&& forall|q: int| 0 <= q < p ==> resolvable(nodes, policy, tags, q)
}

/// One node of the realized network: who it is, what it runs as, and whom it
/// sends to.
#[derive(Debug)]
pub struct NodeSummary {
    pub id: NodeId,
    pub role: Role,
    pub neighbors: Vec<NodeId>,
}

/// The assignments are for the given nodes, position by position.
pub open spec fn same_nodes(assignments: Seq<Assignment>, nodes: Seq<NodeSpec>) -> bool {
    &&& assignments.len() == nodes.len()
    &&& forall|p: int| 0 <= p < nodes.len() ==> (#[trigger] assignments[p]).id == nodes[p].id
}

/// The role and constructor of every node, in declaration order.
#[derive(Debug)]
pub struct BootPlan {
    assignments: Vec<Assignment>,
}

impl BootPlan {
    /// The assignments in declaration order.
    pub closed spec fn assignments(&self) -> Seq<Assignment> {
        self.assignments@
    }

    /// No two assignments are for the same node.
    pub open spec fn wf(&self) -> bool {
        forall|p: int, q: int|
            0 <= p < q < self.assignments().len() ==> (#[trigger] self.assignments()[p]).id != (
            #[trigger] self.assignments()[q]).id
    }

    /// The plan holds, for every node, what the policy and the registry decide.
    pub open spec fn realizes(
        &self,
        nodes: Seq<NodeSpec>,
        policy: RolePolicy,
        tags: Seq<Role>,
    ) -> bool {
        &&& self.assignments().len() == nodes.len()
        &&& forall|p: int|
            0 <= p < nodes.len() ==> planned(
                nodes,
                policy,
                tags,
                p,
                #[trigger] self.assignments()[p],
            )
    }

    /// Assigns every node its role and its constructor.
    ///
    /// Fails on the first node, in declaration order, for which the registry
    /// lacks a constructor; nothing is assigned then.
    pub fn new(topology: &Topology, policy: &RolePolicy, registry: &Registry) -> (result: Result<
        BootPlan,
        WiringError,
    >)
        requires
            topology.wf(),
            policy.wf(),
        ensures
            result is Ok <==> forall|p: int|
                0 <= p < topology.nodes().len() ==> resolvable(
                    topology.nodes(),
                    *policy,
                    registry.tags(),
                    p,
                ),
            match result {
                Ok(plan) => plan.wf() && plan.realizes(topology.nodes(), *policy, registry.tags()),
                Err(error) => exists|p: int|
                    {
                        &&& #[trigger] first_unresolvable(
                            topology.nodes(),
                            *policy,
                            registry.tags(),
                            p,
                        )
                        &&& error == WiringError::VariantNotFound {
                            role: planned_role(topology.nodes(), *policy, p),
                            ordinal: planned_ordinal(topology.nodes(), p) as usize,
                        }
                    },
            },
    {
        let ghost nodes = topology.nodes();
        let ghost tags = registry.tags();
        let records = topology.records();
        let routers = topology.count(NodeClass::Router);
        let clients = topology.count(NodeClass::Client);
        let servers = topology.count(NodeClass::Server);
        let mut seen_routers: usize = 0;
        let mut seen_clients: usize = 0;
        let mut seen_servers: usize = 0;
        let mut assignments: Vec<Assignment> = Vec::new();
        let mut p: usize = 0;
        while p < records.len()
            invariant
                p <= records.len(),
                nodes == topology.nodes(),
                tags == registry.tags(),
                decl_views(records@) == nodes,
                topology.wf(),
                policy.wf(),
                routers == class_count(nodes, NodeClass::Router),
                clients == class_count(nodes, NodeClass::Client),
                servers == class_count(nodes, NodeClass::Server),
                seen_routers == class_count(nodes.take(p as int), NodeClass::Router),
                seen_clients == class_count(nodes.take(p as int), NodeClass::Client),
                seen_servers == class_count(nodes.take(p as int), NodeClass::Server),
                assignments.len() == p,
                forall|q: int|
                    0 <= q < p ==> planned(nodes, *policy, tags, q, #[trigger] assignments@[q]),
                forall|q: int| 0 <= q < p ==> resolvable(nodes, *policy, tags, q),
            decreases records.len() - p,
        {
            let decl = &records[p];
            let class = decl.class;
            proof {
                assert(nodes[p as int] == decl@);
                lemma_class_count_step(nodes, NodeClass::Router, p as int);
                lemma_class_count_step(nodes, NodeClass::Client, p as int);
                lemma_class_count_step(nodes, NodeClass::Server, p as int);
                lemma_class_count_prefix(nodes, class, p + 1);
            }
            let (count, position) = match class {
                NodeClass::Router => (routers, seen_routers),
                NodeClass::Client => (clients, seen_clients),
                NodeClass::Server => (servers, seen_servers),
            };
            let role = policy.partition(class).role_for(count, position);
            let ordinal = match class {
                NodeClass::Router => position,
                _ => 0,
            };
            match registry.resolve(role, ordinal) {
                Ok(constructor) => {
                    assignments.push(Assignment { id: decl.id, role, constructor });
                    proof {
                        lemma_tag_count_step(tags, role, constructor as int);
                        lemma_tag_count_prefix(tags, role, constructor + 1);
                    }
                },
                Err(error) => {
                    proof {
                        assert(first_unresolvable(nodes, *policy, tags, p as int));
                    }
                    return Err(error);
                },
            }
            match class {
                NodeClass::Router => {
                    seen_routers = seen_routers + 1;
                },
                NodeClass::Client => {
                    seen_clients = seen_clients + 1;
                },
                NodeClass::Server => {
                    seen_servers = seen_servers + 1;
                },
            }
            p = p + 1;
        }
        proof {
            assert forall|a: int, b: int| 0 <= a < b < assignments@.len() implies (
            #[trigger] assignments@[a]).id != (#[trigger] assignments@[b]).id by {
                assert(planned(nodes, *policy, tags, a, assignments@[a]));
                assert(planned(nodes, *policy, tags, b, assignments@[b]));
                assert(nodes[a].id != nodes[b].id);
            }
        }
        Ok(BootPlan { assignments })
    }

    /// The realized network for a monitor: every node of `topology` in
    /// declaration order with its role and its neighbor set. `None` when the
    /// plan is not for the nodes of `topology`.
    pub fn realized(&self, topology: &Topology) -> (summary: Option<Vec<NodeSummary>>)
        ensures
            summary is Some <==> same_nodes(self.assignments(), topology.nodes()),
            summary matches Some(listed) ==> {
                &&& listed.len() == topology.nodes().len()
                &&& forall|p: int|
                    0 <= p < listed.len() ==> {
                        &&& (#[trigger] listed[p]).id == topology.nodes()[p].id
                        &&& listed[p].role == self.assignments()[p].role
                        &&& listed[p].neighbors@ == topology.nodes()[p].neighbors
                    }
            },
    {
        let ghost nodes = topology.nodes();
        let records = topology.records();
        if self.assignments.len() != records.len() {
            return None;
        }
        let mut listed: Vec<NodeSummary> = Vec::new();
        let mut p: usize = 0;
        while p < records.len()
            invariant
                p <= records.len(),
                self.assignments.len() == records.len(),
                nodes == topology.nodes(),
                decl_views(records@) == nodes,
                listed.len() == p,
                forall|q: int| 0 <= q < p ==> (#[trigger] self.assignments@[q]).id == nodes[q].id,
                forall|q: int|
                    0 <= q < p ==> {
                        &&& (#[trigger] listed[q]).id == nodes[q].id
                        &&& listed[q].role == self.assignments@[q].role
                        &&& listed[q].neighbors@ == nodes[q].neighbors
                    },
            decreases records.len() - p,
        {
            let assignment = self.assignments[p];
            proof {
                assert(nodes[p as int] == records@[p as int]@);
            }
            if assignment.id != records[p].id {
                proof {
                    assert(self.assignments()[p as int].id != nodes[p as int].id);
                }
                return None;
            }
            let neighbors = copy_ids(&records[p].neighbors);
            listed.push(NodeSummary { id: assignment.id, role: assignment.role, neighbors });
            p = p + 1;
        }
        Some(listed)
    }

    /// The assignments in declaration order.
    pub fn entries(&self) -> (entries: &Vec<Assignment>)
        ensures
            entries@ == self.assignments(),
    {
        &self.assignments
    }
}

/// The build is deterministic: two plans that realize the same topology under
/// the same policy and registry hold the same assignments.
pub proof fn lemma_plan_deterministic(
    first: BootPlan,
    second: BootPlan,
    nodes: Seq<NodeSpec>,
    policy: RolePolicy,
    tags: Seq<Role>,
)
    requires
        first.realizes(nodes, policy, tags),
        second.realizes(nodes, policy, tags),
    ensures
        first.assignments() == second.assignments(),
{
    assert forall|p: int| 0 <= p < nodes.len() implies first.assignments()[p]
        == second.assignments()[p] by {
        let a = first.assignments()[p];
        let b = second.assignments()[p];
        assert(planned(nodes, policy, tags, p, a));
        assert(planned(nodes, policy, tags, p, b));
        lemma_nth_tagged_unique(
            tags,
            a.role,
            planned_ordinal(nodes, p),
            a.constructor as int,
            b.constructor as int,
        );
    }
    assert(first.assignments() =~= second.assignments());
}

/// The partition preserves declaration order: of two nodes of one class, the
/// one declared later never falls into an earlier group, and every node runs
/// as the role of its group.
pub proof fn lemma_roles_follow_declaration_order(
    nodes: Seq<NodeSpec>,
    policy: RolePolicy,
    p: int,
    q: int,
)
    requires
        policy.wf(),
        0 <= p <= q < nodes.len(),
        nodes[p].class == nodes[q].class,
    ensures
        planned_group(nodes, policy, p) <= planned_group(nodes, policy, q),
        planned_group(nodes, policy, q) < policy.of(nodes[q].class).roles().len(),
        planned_role(nodes, policy, p) == policy.of(nodes[p].class).roles()[planned_group(
            nodes,
            policy,
            p,
        ) as int],
        planned_role(nodes, policy, q) == policy.of(nodes[q].class).roles()[planned_group(
            nodes,
            policy,
            q,
        ) as int],
{
    let class = nodes[p].class;
    let partition = policy.of(class);
    assert(partition.wf());
    assert(nodes.take(q).take(p) =~= nodes.take(p));
    lemma_class_count_prefix(nodes.take(q), class, p);
    lemma_class_count_step(nodes, class, q);
    lemma_class_count_prefix(nodes, class, q + 1);
    lemma_group_of_monotonic(
        class_count(nodes, class),
        partition.roles().len(),
        partition.surplus(),
        rank(nodes, p),
        rank(nodes, q),
    );
    lemma_group_of(
        class_count(nodes, class),
        partition.roles().len(),
        partition.surplus(),
        rank(nodes, q),
    );
}

} // verus!
