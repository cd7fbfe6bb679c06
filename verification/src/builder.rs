//! Assembles, role by role, what every node's constructor needs, and the
//! directory through which the controller addresses the nodes.
//!
//! The nodes of one role share the types of their control channels, so a
//! network is built with one call per role. Each node keeps the consuming ends
//! of its inbound and command channels for itself; the controller gets
//! producing ends only.

use crate::assignment::{same_nodes, Assignment, BootPlan};
use crate::channel::{open_channel, Consumer, Party, Producer};
use crate::fabric::{ChannelTable, MessageEnds};
use crate::partition::Role;
use crate::registry::WiringError;
use crate::topology::{declares, NodeId, NodeSpec};
use std::collections::HashMap;
use vstd::prelude::*;

verus! {

/// The assignments for `role`, in declaration order.
pub open spec fn members(assignments: Seq<Assignment>, role: Role) -> Seq<Assignment>
    decreases assignments.len(),
{
    if assignments.len() == 0 {
        Seq::empty()
    } else {
        let earlier = members(assignments.drop_last(), role);
        if assignments.last().role == role {
            earlier.push(assignments.last())
        } else {
            earlier
        }
    }
}

/// The identifiers of the nodes assigned `role`.
pub open spec fn member_ids(assignments: Seq<Assignment>, role: Role) -> Set<NodeId> {
    Set::new(
        |n: NodeId|
            exists|p: int|
                0 <= p < assignments.len() && (#[trigger] assignments[p]).role == role
                    && assignments[p].id == n,
    )
}

/// Assignment `p` has the role but the table lacks its node's ends or a
/// producing end towards it.
pub open spec fn unwired<P>(
    table: ChannelTable<P>,
    assignments: Seq<Assignment>,
    role: Role,
    p: int,
) -> bool {
    &&& 0 <= p < assignments.len()
    &&& assignments[p].role == role
    &&& !(table.ends().contains_key(assignments[p].id) && table.producers().contains_key(
        assignments[p].id,
    ))
}

/// Everything the constructor of one node takes: which constructor it is, and
/// the node's ends of its message and control channels.
#[verifier::reject_recursive_types(P)]
#[verifier::reject_recursive_types(C)]
#[verifier::reject_recursive_types(E)]
#[derive(Debug)]
pub struct ActorSeed<P, C, E> {
    assignment: Assignment,
    commands: Consumer<C>,
    events: Producer<E>,
    inbound: Consumer<P>,
    outbound: HashMap<NodeId, Producer<P>>,
}

impl<P, C, E> ActorSeed<P, C, E> {
    /// The node, its role and its constructor.
    pub closed spec fn assignment(&self) -> Assignment {
        self.assignment
    }

    /// The consuming end of the node's command channel.
    pub closed spec fn commands(&self) -> Consumer<C> {
        self.commands
    }

    /// A producing end of the event channel.
    pub closed spec fn events(&self) -> Producer<E> {
        self.events
    }

    /// The consuming end of the node's inbound message channel.
    pub closed spec fn inbound(&self) -> Consumer<P> {
        self.inbound
    }

    /// The producing ends towards the node's neighbors.
    pub closed spec fn outbound(&self) -> Map<NodeId, Producer<P>> {
        self.outbound@
    }

    /// The seed is for assignment `a` and carries the message ends `ends`, the
    /// consuming end of the node's own command channel and a producing end
    /// towards the controller.
    pub open spec fn carries(&self, a: Assignment, ends: MessageEnds<P>) -> bool {
        &&& self.assignment() == a
        &&& self.inbound() == ends.inbound()
        &&& self.outbound() == ends.outbound()
        &&& self.commands().owner() == Party::Node(a.id)
        &&& self.events().target() == Party::Controller
    }

    /// The node, its role and its constructor.
    pub fn node(&self) -> (assignment: Assignment)
        ensures
            assignment == self.assignment(),
    {
        self.assignment
    }

    /// Hands out the channel ends: command consumer, event producer, inbound
    /// message consumer and outbound message producers.
    pub fn into_parts(self) -> (parts: (
        Assignment,
        Consumer<C>,
        Producer<E>,
        Consumer<P>,
        HashMap<NodeId, Producer<P>>,
    ))
        ensures
            parts.0 == self.assignment(),
            parts.1 == self.commands(),
            parts.2 == self.events(),
            parts.3 == self.inbound(),
            parts.4@ == self.outbound(),
    {
        (self.assignment, self.commands, self.events, self.inbound, self.outbound)
    }
}

/// The controller's handle on one node: a producing end of the node's command
/// channel and one of its inbound message channel.
#[verifier::reject_recursive_types(P)]
#[verifier::reject_recursive_types(C)]
#[derive(Debug)]
pub struct ControlEntry<P, C> {
    command: Producer<C>,
    message: Producer<P>,
}

impl<P, C> ControlEntry<P, C> {
    /// The producing end of the node's command channel.
    pub closed spec fn command(&self) -> Producer<C> {
        self.command
    }

    /// A producing end of the node's inbound message channel.
    pub closed spec fn message(&self) -> Producer<P> {
        self.message
    }

    /// Both ends feed `node`.
    pub open spec fn addresses(&self, node: NodeId) -> bool {
        &&& self.command().target() == Party::Node(node)
        &&& self.message().target() == Party::Node(node)
    }

    /// Hands out the command producer and the message producer.
    pub fn into_parts(self) -> (parts: (Producer<C>, Producer<P>))
        ensures
            parts.0 == self.command(),
            parts.1 == self.message(),
    {
        (self.command, self.message)
    }
}

/// The table through which the controller addresses the nodes of one role.
#[verifier::reject_recursive_types(P)]
#[verifier::reject_recursive_types(C)]
#[derive(Debug)]
pub struct ControlDirectory<P, C> {
    entries: HashMap<NodeId, ControlEntry<P, C>>,
}

impl<P, C> ControlDirectory<P, C> {
    /// The entries by node.
    pub closed spec fn entries(&self) -> Map<NodeId, ControlEntry<P, C>> {
        self.entries@
    }

    /// The entry filed under a node addresses that node.
    pub open spec fn wf(&self) -> bool {
        forall|n: NodeId| #[trigger]
            self.entries().contains_key(n) ==> self.entries()[n].addresses(n)
    }

    /// Number of nodes the controller can address.
    pub fn len(&self) -> (len: usize)
        ensures
            len == self.entries().dom().len(),
    {
        self.entries.len()
    }

    /// Whether the controller can address `node`.
    pub fn contains(&self, node: NodeId) -> (held: bool)
        ensures
            held == self.entries().contains_key(node),
    {
        self.entries.contains_key(&node)
    }

    /// Moves the entry of `node` out of the directory; `None` when it has none.
    pub fn take(&mut self, node: NodeId) -> (taken: Option<ControlEntry<P, C>>)
        ensures
            taken == if old(self).entries().contains_key(node) {
                Some(old(self).entries()[node])
            } else {
                None
            },
            final(self).entries() == old(self).entries().remove(node),
    {
        self.entries.remove(&node)
    }

    /// Hands out the entries.
    pub fn into_entries(self) -> (entries: HashMap<NodeId, ControlEntry<P, C>>)
        ensures
            entries@ == self.entries(),
    {
        self.entries
    }
}

/// The nodes of one role, ready to be constructed, with the controller's side
/// of their control channels.
#[verifier::reject_recursive_types(P)]
#[verifier::reject_recursive_types(C)]
#[verifier::reject_recursive_types(E)]
#[derive(Debug)]
pub struct ActorGroup<P, C, E> {
    role: Role,
    seeds: Vec<ActorSeed<P, C, E>>,
    directory: ControlDirectory<P, C>,
    events: Consumer<E>,
    reporter: Producer<E>,
}

impl<P, C, E> ActorGroup<P, C, E> {
    /// The role of the group's nodes.
    pub closed spec fn role(&self) -> Role {
        self.role
    }

    /// One seed per node, in declaration order.
    pub closed spec fn seeds(&self) -> Seq<ActorSeed<P, C, E>> {
        self.seeds@
    }

    /// The controller's handles on the nodes.
    pub closed spec fn directory(&self) -> ControlDirectory<P, C> {
        self.directory
    }

    /// The consuming end of the group's event channel.
    pub closed spec fn events(&self) -> Consumer<E> {
        self.events
    }

    /// A producing end of the group's event channel.
    pub closed spec fn reporter(&self) -> Producer<E> {
        self.reporter
    }

    /// The group is what building `role` from the assignments yields, the
    /// message ends coming from `ends`: one seed per member in declaration
    /// order, one directory entry per member, and an event channel that the
    /// controller consumes.
    pub open spec fn assembled(
        &self,
        assignments: Seq<Assignment>,
        role: Role,
        ends: Map<NodeId, MessageEnds<P>>,
    ) -> bool {
        let expected = members(assignments, role);
        &&& self.role() == role
        &&& self.seeds().len() == expected.len()
        &&& forall|k: int|
            0 <= k < expected.len() ==> (#[trigger] self.seeds()[k]).carries(
                expected[k],
                ends[expected[k].id],
            )
        &&& self.directory().wf()
        &&& self.directory().entries().dom() == member_ids(assignments, role)
        &&& self.events().owner() == Party::Controller
        &&& self.reporter().target() == Party::Controller
    }

    /// Number of nodes in the group.
    pub fn len(&self) -> (len: usize)
        ensures
            len == self.seeds().len(),
    {
        self.seeds.len()
    }

    /// Hands out the seeds, the directory, and both ends of the event channel.
    pub fn into_parts(self) -> (parts: (
        Vec<ActorSeed<P, C, E>>,
        ControlDirectory<P, C>,
        Consumer<E>,
        Producer<E>,
    ))
        ensures
            parts.0@ == self.seeds(),
            parts.1 == self.directory(),
            parts.2 == self.events(),
            parts.3 == self.reporter(),
    {
        (self.seeds, self.directory, self.events, self.reporter)
    }
}

/// Looking one assignment further adds that assignment to the members and its
/// node to their identifiers exactly when it has the role.
pub proof fn lemma_members_step(assignments: Seq<Assignment>, role: Role, p: int)
    requires
        0 <= p < assignments.len(),
    ensures
        members(assignments.take(p + 1), role) == if assignments[p].role == role {
            members(assignments.take(p), role).push(assignments[p])
        } else {
            members(assignments.take(p), role)
        },
        member_ids(assignments.take(p + 1), role) == if assignments[p].role == role {
            member_ids(assignments.take(p), role).insert(assignments[p].id)
        } else {
            member_ids(assignments.take(p), role)
        },
{
    let shorter = assignments.take(p);
    let longer = assignments.take(p + 1);
    assert(longer.drop_last() =~= shorter);
    assert(longer.last() == assignments[p]);
    let grown = if assignments[p].role == role {
        member_ids(shorter, role).insert(assignments[p].id)
    } else {
        member_ids(shorter, role)
    };
    assert forall|n: NodeId| member_ids(longer, role).contains(n) <==> grown.contains(n) by {
        if member_ids(longer, role).contains(n) {
            let q = choose|q: int|
                0 <= q < longer.len() && (#[trigger] longer[q]).role == role && longer[q].id == n;
            if q < p {
                assert(shorter[q].role == role && shorter[q].id == n);
            }
        }
        if member_ids(shorter, role).contains(n) {
            let q = choose|q: int|
                0 <= q < shorter.len() && (#[trigger] shorter[q]).role == role && shorter[q].id
                    == n;
            assert(longer[q].role == role && longer[q].id == n);
        }
        if assignments[p].role == role && n == assignments[p].id {
            assert(longer[p].role == role && longer[p].id == n);
        }
    }
    assert(member_ids(longer, role) =~= grown);
}

/// Builds the nodes of one role.
///
/// For every node assigned `role`, in declaration order, the node's message
/// ends move out of `table` into a seed, a command channel is opened for it,
/// and the controller's directory gets a producing end of the node's command
/// channel and one of its inbound message channel. The nodes share one event
/// channel. When the table lacks the ends of a member or a producing end
/// towards it, nothing is built and the table is left as it was.
pub fn build<P, C, E>(plan: &BootPlan, role: Role, table: &mut ChannelTable<P>) -> (result: Result<
    ActorGroup<P, C, E>,
    WiringError,
>)
    requires
        plan.wf(),
        old(table).wf(),
    ensures
        result is Ok <==> forall|p: int| !unwired(*old(table), plan.assignments(), role, p),
        match result {
            Ok(group) => {
                &&& group.assembled(plan.assignments(), role, old(table).ends())
                &&& group.directory().entries().dom().len() == group.seeds().len()
                &&& final(table).wf()
                &&& final(table).ends() == old(table).ends().remove_keys(
                    member_ids(plan.assignments(), role),
                )
                &&& final(table).producers() == old(table).producers()
            },
            Err(error) => {
                &&& *final(table) == *old(table)
                &&& exists|p: int|
                    {
                        &&& #[trigger] unwired(*old(table), plan.assignments(), role, p)
                        &&& forall|q: int|
                            0 <= q < p ==> !unwired(*old(table), plan.assignments(), role, q)
                        &&& error == WiringError::MissingChannel { node: plan.assignments()[p].id }
                    }
            },
        },
{
    let entries = plan.entries();
    let ghost a = plan.assignments();
    let mut p: usize = 0;
    while p < entries.len()
        invariant
            p <= entries.len(),
            entries@ == a,
            a == plan.assignments(),
            *table == *old(table),
            forall|q: int| 0 <= q < p ==> !unwired(*table, a, role, q),
        decreases entries.len() - p,
    {
        let entry = entries[p];
        if entry.role == role {
            if !(table.has_ends(entry.id) && table.has_producer(entry.id)) {
                proof {
                    assert(unwired(*table, a, role, p as int));
                }
                return Err(WiringError::MissingChannel { node: entry.id });
            }
        }
        p = p + 1;
    }
    let ghost start_ends = table.ends();
    let ghost start_producers = table.producers();
    let (reporter, events) = open_channel::<E>(Party::Controller);
    let mut seeds: Vec<ActorSeed<P, C, E>> = Vec::new();
    let mut directory: HashMap<NodeId, ControlEntry<P, C>> = HashMap::new();
    let mut p: usize = 0;
    while p < entries.len()
        invariant
            p <= entries.len(),
            entries@ == a,
            plan.wf(),
            a == plan.assignments(),
            table.wf(),
            table.producers() == start_producers,
            table.ends() =~= start_ends.remove_keys(member_ids(a.take(p as int), role)),
            forall|q: int| 0 <= q < a.len() ==> !unwired(*old(table), a, role, q),
            start_ends == old(table).ends(),
            start_producers == old(table).producers(),
            reporter.target() == Party::Controller,
            seeds.len() == members(a.take(p as int), role).len(),
            forall|k: int|
                0 <= k < seeds.len() ==> (#[trigger] seeds@[k]).carries(
                    members(a.take(p as int), role)[k],
                    start_ends[members(a.take(p as int), role)[k].id],
                ),
            directory@.dom() =~= member_ids(a.take(p as int), role),
            forall|n: NodeId| #[trigger] directory@.contains_key(n) ==> directory@[n].addresses(n),
        decreases entries.len() - p,
    {
        let entry = entries[p];
        proof {
            lemma_members_step(a, role, p as int);
        }
        if entry.role == role {
            proof {
                assert(!unwired(*old(table), a, role, p as int));
                assert(!member_ids(a.take(p as int), role).contains(entry.id)) by {
                    if member_ids(a.take(p as int), role).contains(entry.id) {
                        let q = choose|q: int|
                            0 <= q < a.take(p as int).len() && (#[trigger] a.take(
                                p as int,
                            )[q]).role == role && a.take(p as int)[q].id == entry.id;
                        assert(a[q].id != a[p as int].id);
                    }
                }
                assert(table.ends().contains_key(entry.id));
            }
            let ghost ends_before = table.ends();
            let ends = table.take_ends(entry.id).unwrap();
            let message = table.producer(entry.id).unwrap();
            let (inbound, outbound) = ends.into_parts();
            let (command, commands) = open_channel::<C>(Party::Node(entry.id));
            let ghost seeds_before = seeds@;
            seeds.push(
                ActorSeed {
                    assignment: entry,
                    commands,
                    events: reporter.duplicate(),
                    inbound,
                    outbound,
                },
            );
            directory.insert(entry.id, ControlEntry { command, message });
            proof {
                let earlier = members(a.take(p as int), role);
                let now = members(a.take(p + 1), role);
                assert(now == earlier.push(entry));
                assert forall|k: int| 0 <= k < seeds.len() implies (#[trigger] seeds@[k]).carries(
                    now[k],
                    start_ends[now[k].id],
                ) by {
                    if k < seeds_before.len() {
                        assert(seeds@[k] == seeds_before[k]);
                        assert(now[k] == earlier[k]);
                    } else {
                        assert(now[k] == entry);
                        assert(ends == start_ends[entry.id]);
                    }
                }
                assert(table.ends() =~= start_ends.remove_keys(
                    member_ids(a.take(p + 1), role),
                ));
                assert forall|n: NodeId| #[trigger]
                    table.ends().contains_key(n) implies table.ends()[n].serves(n) by {
                    assert(ends_before.contains_key(n));
                }
            }
        }
        p = p + 1;
    }
    proof {
        assert(a.take(entries.len() as int) =~= a);
        lemma_member_count(*plan, role, a.len() as int);
    }
    let directory = ControlDirectory { entries: directory };
    Ok(ActorGroup { role, seeds, directory, events, reporter })
}

/// Every member's node is among the member identifiers, and with distinct
/// identifiers there are as many of the one as of the other.
pub proof fn lemma_member_count(plan: BootPlan, role: Role, len: int)
    requires
        plan.wf(),
        0 <= len <= plan.assignments().len(),
    ensures
        member_ids(plan.assignments().take(len), role).finite(),
        member_ids(plan.assignments().take(len), role).len() == members(
            plan.assignments().take(len),
            role,
        ).len(),
    decreases len,
{
    let a = plan.assignments();
    if len == 0 {
        assert(member_ids(a.take(0), role) =~= Set::empty());
    } else {
        lemma_member_count(plan, role, len - 1);
        lemma_members_step(a, role, len - 1);
        let earlier = member_ids(a.take(len - 1), role);
        if earlier.contains(a[len - 1].id) {
            let q = choose|q: int|
                0 <= q < a.take(len - 1).len() && (#[trigger] a.take(len - 1)[q]).role == role
                    && a.take(len - 1)[q].id == a[len - 1].id;
            assert(a[q].id != a[len - 1].id);
        }
    }
}

/// After a successful build the directory holds exactly one entry per node of
/// the role, filed under the node's identifier and addressing that node.
pub proof fn lemma_directory_one_entry_per_member<P, C, E>(
    group: ActorGroup<P, C, E>,
    plan: BootPlan,
    role: Role,
    ends: Map<NodeId, MessageEnds<P>>,
)
    requires
        plan.wf(),
        group.assembled(plan.assignments(), role, ends),
    ensures
        group.directory().entries().dom().finite(),
        group.directory().entries().dom().len() == group.seeds().len(),
        forall|k: int|
            0 <= k < group.seeds().len() ==> {
                let node = (#[trigger] group.seeds()[k]).assignment().id;
                &&& group.directory().entries().contains_key(node)
                &&& group.directory().entries()[node].addresses(node)
            },
        forall|p: int|
            0 <= p < plan.assignments().len() ==> (group.directory().entries().contains_key(
                (#[trigger] plan.assignments()[p]).id,
            ) <==> plan.assignments()[p].role == role),
{
    let a = plan.assignments();
    assert(a.take(a.len() as int) =~= a);
    lemma_member_count(plan, role, a.len() as int);
    assert forall|k: int| 0 <= k < group.seeds().len() implies {
        let node = (#[trigger] group.seeds()[k]).assignment().id;
        &&& group.directory().entries().contains_key(node)
        &&& group.directory().entries()[node].addresses(node)
    } by {
        lemma_members_are_assigned(a, role, k);
        assert(group.seeds()[k].carries(members(a, role)[k], ends[members(a, role)[k].id]));
    }
    assert forall|p: int| 0 <= p < a.len() implies (group.directory().entries().contains_key(
        (#[trigger] a[p]).id,
    ) <==> a[p].role == role) by {
        lemma_one_role_per_node(plan, p, role);
    }
}

/// Member `k` of a role is one of the assignments and has the role.
pub proof fn lemma_members_are_assigned(assignments: Seq<Assignment>, role: Role, k: int)
    requires
        0 <= k < members(assignments, role).len(),
    ensures
        members(assignments, role)[k].role == role,
        member_ids(assignments, role).contains(members(assignments, role)[k].id),
    decreases assignments.len(),
{
    if assignments.len() > 0 {
        let shorter = assignments.drop_last();
        let earlier = members(shorter, role);
        if k < earlier.len() {
            lemma_members_are_assigned(shorter, role, k);
            let q = choose|q: int|
                0 <= q < shorter.len() && (#[trigger] shorter[q]).role == role && shorter[q].id
                    == earlier[k].id;
            assert(assignments[q].role == role && assignments[q].id == earlier[k].id);
        } else {
            let last = assignments.len() - 1;
            assert(assignments[last].role == role && assignments[last].id == members(
                assignments,
                role,
            )[k].id);
        }
    }
}

/// A node is a member of its own role and of no other: the directories of the
/// roles share no node, and together they hold every node.
pub proof fn lemma_one_role_per_node(plan: BootPlan, p: int, role: Role)
    requires
        plan.wf(),
        0 <= p < plan.assignments().len(),
    ensures
        member_ids(plan.assignments(), role).contains(plan.assignments()[p].id) <==> role
            == plan.assignments()[p].role,
{
    let a = plan.assignments();
    if member_ids(a, role).contains(a[p].id) {
        let q = choose|q: int|
            0 <= q < a.len() && (#[trigger] a[q]).role == role && a[q].id == a[p].id;
        if q < p {
            assert(a[q].id != a[p].id);
        }
        if p < q {
            assert(a[p].id != a[q].id);
        }
    }
}

/// Every node is a member of one of the six roles: the groups are as large
/// together as the network.
pub proof fn lemma_members_total(assignments: Seq<Assignment>)
    ensures
        members(assignments, Role::Router).len() + members(assignments, Role::ChatClient).len()
            + members(assignments, Role::MediaClient).len() + members(
            assignments,
            Role::TextServer,
        ).len() + members(assignments, Role::MediaServer).len() + members(
            assignments,
            Role::CommunicationServer,
        ).len() == assignments.len(),
    decreases assignments.len(),
{
    if assignments.len() > 0 {
        lemma_members_total(assignments.drop_last());
    }
}

/// Every seed of a group built from a well-formed table holds ends of its own
/// node only: the node owns the consuming ends of its inbound and command
/// channels, each outbound producing end feeds the neighbor it is filed under,
/// and the event producing end feeds the controller.
pub proof fn lemma_seeds_own_their_ends<P, C, E>(
    group: ActorGroup<P, C, E>,
    plan: BootPlan,
    role: Role,
    table: ChannelTable<P>,
    k: int,
)
    requires
        table.wf(),
        forall|p: int| !unwired(table, plan.assignments(), role, p),
        group.assembled(plan.assignments(), role, table.ends()),
        0 <= k < group.seeds().len(),
    ensures
        group.seeds()[k].assignment().role == role,
        group.seeds()[k].inbound().owner() == Party::Node(group.seeds()[k].assignment().id),
        group.seeds()[k].commands().owner() == Party::Node(group.seeds()[k].assignment().id),
        group.seeds()[k].events().target() == Party::Controller,
        forall|j: NodeId| #[trigger]
            group.seeds()[k].outbound().contains_key(j) ==> group.seeds()[k].outbound()[j].target()
                == Party::Node(j),
{
    let a = plan.assignments();
    let member = members(a, role)[k];
    lemma_members_are_assigned(a, role, k);
    let p = choose|p: int|
        0 <= p < a.len() && (#[trigger] a[p]).role == role && a[p].id == member.id;
    assert(!unwired(table, a, role, p));
    assert(table.ends()[member.id].serves(member.id));
    assert(group.seeds()[k].carries(member, table.ends()[member.id]));
}

/// The table woven for a network lacks no channel of it: a plan for the same
/// nodes can be built for any role.
pub proof fn lemma_woven_table_wires_every_role<P>(
    table: ChannelTable<P>,
    plan: BootPlan,
    nodes: Seq<NodeSpec>,
    role: Role,
)
    requires
        same_nodes(plan.assignments(), nodes),
        table.woven(nodes),
    ensures
        forall|p: int| !unwired(table, plan.assignments(), role, p),
{
    let a = plan.assignments();
    assert forall|p: int| !unwired(table, a, role, p) by {
        if 0 <= p < a.len() {
            assert(nodes[p].id == a[p].id);
            assert(declares(nodes, a[p].id));
        }
    }
}

/// Building one role takes nothing that another role needs: whatever could be
/// built before can be built afterwards, so the roles can be built in any
/// order.
pub proof fn lemma_build_leaves_other_roles_wired<P>(
    before: ChannelTable<P>,
    after: ChannelTable<P>,
    plan: BootPlan,
    built: Role,
    role: Role,
)
    requires
        plan.wf(),
        built != role,
        forall|p: int| !unwired(before, plan.assignments(), role, p),
        after.ends() == before.ends().remove_keys(member_ids(plan.assignments(), built)),
        after.producers() == before.producers(),
    ensures
        forall|p: int| !unwired(after, plan.assignments(), role, p),
{
    let a = plan.assignments();
    assert forall|p: int| !unwired(after, a, role, p) by {
        if 0 <= p < a.len() && a[p].role == role {
            assert(!unwired(before, a, role, p));
            lemma_one_role_per_node(plan, p, built);
        }
    }
}

} // verus!
