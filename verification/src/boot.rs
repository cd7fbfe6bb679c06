//! The boot sequence up to the point where actors can be built.
//!
//! The declared network is validated first, then every node is bound to its
//! role and constructor, and only then are channels opened: whatever is wrong
//! with the description or the registry ends the boot before a channel exists.

use crate::assignment::{first_unresolvable, planned_ordinal, planned_role, BootPlan, RolePolicy};
use crate::builder::{lemma_woven_table_wires_every_role, unwired};
use crate::fabric::{weave, ChannelTable};
use crate::partition::Role;
use crate::registry::{Registry, WiringError};
use crate::topology::{decl_views, normalized, validation, NodeDecl, Topology, TopologyError};
use vstd::prelude::*;

verus! {

/// Why the network did not boot.
#[derive(Clone, Copy, Debug, PartialEq, Eq, Structural)]
pub enum BootError {
    /// The declared network is not a topology.
    Topology(TopologyError),
    /// A node has no constructor.
    Wiring(WiringError),
}

/// Validates the declared network, assigns roles and constructors, and opens
/// the message channels.
///
/// A refusal of the declared network comes first; a node without constructor
/// comes next. No channel is opened unless both steps succeed. What is handed
/// out lacks nothing: every role of the plan can be built from the table.
pub fn boot<P>(
    decls: Vec<NodeDecl>,
    min_routers: usize,
    policy: &RolePolicy,
    registry: &Registry,
) -> (result: Result<(Topology, BootPlan, ChannelTable<P>), BootError>)
    requires
        policy.wf(),
    ensures
        match result {
            Ok((topology, plan, table)) => {
                &&& validation(decl_views(decls@), min_routers as nat, Ok(topology.nodes()))
                &&& topology.wf()
                &&& plan.wf()
                &&& plan.realizes(topology.nodes(), *policy, registry.tags())
                &&& table.wf()
                &&& table.woven(topology.nodes())
                &&& forall|role: Role, p: int| !unwired(table, plan.assignments(), role, p)
            },
            Err(BootError::Topology(error)) => validation(
                decl_views(decls@),
                min_routers as nat,
                Err(error),
            ),
            Err(BootError::Wiring(error)) => {
                let nodes = normalized(decl_views(decls@));
                &&& validation(decl_views(decls@), min_routers as nat, Ok(nodes))
                &&& exists|p: int|
                    {
                        &&& #[trigger] first_unresolvable(nodes, *policy, registry.tags(), p)
                        &&& error == WiringError::VariantNotFound {
                            role: planned_role(nodes, *policy, p),
                            ordinal: planned_ordinal(nodes, p) as usize,
                        }
                    }
            },
        },
{
    let topology = match Topology::new(decls, min_routers) {
        Ok(topology) => topology,
        Err(error) => {
            return Err(BootError::Topology(error));
        },
    };
    let plan = match BootPlan::new(&topology, policy, registry) {
        Ok(plan) => plan,
        Err(error) => {
            return Err(BootError::Wiring(error));
        },
    };
    let table = weave::<P>(&topology);
    proof {
        assert forall|role: Role, p: int| !unwired(table, plan.assignments(), role, p) by {
            lemma_woven_table_wires_every_role(table, plan, topology.nodes(), role);
        }
    }
    Ok((topology, plan, table))
}

} // verus!
