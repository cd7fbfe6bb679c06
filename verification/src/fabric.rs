//! Compiles a topology into message channels.
//!
//! Every node gets one inbound channel, whose consuming end only that node will
//! own. Every adjacency entry becomes one directed edge: the declaring node
//! gets a producing end of the neighbor's inbound channel, filed under the
//! neighbor's identifier. A link in both directions takes an entry on each
//! side.

use crate::channel::{open_channel, Consumer, Party, Producer};
use crate::topology::{
    dangling, decl_views, declares, degree_sum, ids_of, lemma_declares_step, lemma_id_set_bounded,
    lemma_node_count_bounded, valid, NodeId, NodeSpec, Topology, ID_SPACE,
};
use std::collections::HashMap;
use vstd::prelude::*;

verus! {

/// The message-channel ends of one node: the consuming end of its inbound
/// channel, and a producing end towards each neighbor.
#[verifier::reject_recursive_types(P)]
#[derive(Debug)]
pub struct MessageEnds<P> {
    inbound: Consumer<P>,
    outbound: HashMap<NodeId, Producer<P>>,
}

impl<P> MessageEnds<P> {
    /// The consuming end of the node's inbound channel.
    pub closed spec fn inbound(&self) -> Consumer<P> {
        self.inbound
    }

    /// The producing ends, by the neighbor they are filed under.
    pub closed spec fn outbound(&self) -> Map<NodeId, Producer<P>> {
        self.outbound@
    }

    /// The neighbors the node can send to.
    pub open spec fn links(&self) -> Set<NodeId> {
        self.outbound().dom()
    }

    /// These are the ends of `node`: it owns the consuming end, and the
    /// producing end filed under a neighbor feeds that neighbor.
    pub open spec fn serves(&self, node: NodeId) -> bool {
        &&& self.inbound().owner() == Party::Node(node)
        &&& forall|j: NodeId| #[trigger]
            self.outbound().contains_key(j) ==> self.outbound()[j].target() == Party::Node(j)
    }

    /// Number of neighbors the node can send to.
    pub fn link_count(&self) -> (count: usize)
        ensures
            count == self.links().len(),
    {
        self.outbound.len()
    }

    /// Hands out the consuming end and the producing ends.
    pub fn into_parts(self) -> (parts: (Consumer<P>, HashMap<NodeId, Producer<P>>))
        ensures
            parts.0 == self.inbound(),
            parts.1@ == self.outbound(),
    {
        (self.inbound, self.outbound)
    }
}

/// Adding one more element of a list to the set of those before it.
proof fn lemma_prefix_set_step(s: Seq<NodeId>, k: int)
    requires
        0 <= k < s.len(),
    ensures
        s.take(k + 1).to_set() =~= s.take(k).to_set().insert(s[k]),
{
    let shorter = s.take(k);
    let longer = s.take(k + 1);
    assert forall|x: NodeId| longer.to_set().contains(x) <==> shorter.to_set().insert(
        s[k],
    ).contains(x) by {
        if longer.contains(x) {
            let h = choose|h: int| 0 <= h < longer.len() && longer[h] == x;
            if h < k {
                assert(shorter[h] == x);
            }
        }
        if shorter.contains(x) {
            let h = choose|h: int| 0 <= h < shorter.len() && shorter[h] == x;
            assert(longer[h] == x);
        }
        if x == s[k] {
            assert(longer[k] == x);
        }
    }
}

/// The message channels of a network: for every node the ends it will own, and
/// a producing end of its inbound channel to duplicate for others.
#[verifier::reject_recursive_types(P)]
#[derive(Debug)]
pub struct ChannelTable<P> {
    ends: HashMap<NodeId, MessageEnds<P>>,
    producers: HashMap<NodeId, Producer<P>>,
}

/// Number of outbound producing ends held for the given nodes.
pub open spec fn edges_held<P>(ends: Map<NodeId, MessageEnds<P>>, nodes: Seq<NodeSpec>) -> nat
    decreases nodes.len(),
{
    if nodes.len() == 0 {
        0
    } else {
        edges_held(ends, nodes.drop_last()) + if ends.contains_key(nodes.last().id) {
            ends[nodes.last().id].links().len()
        } else {
            0
        }
    }
}

impl<P> ChannelTable<P> {
    /// The ends held for each node that has not taken them yet.
    pub closed spec fn ends(&self) -> Map<NodeId, MessageEnds<P>> {
        self.ends@
    }

    /// A producing end of each node's inbound channel.
    pub closed spec fn producers(&self) -> Map<NodeId, Producer<P>> {
        self.producers@
    }

    /// What is filed under a node belongs to that node.
    pub open spec fn wf(&self) -> bool {
        &&& forall|n: NodeId| #[trigger] self.ends().contains_key(n) ==> self.ends()[n].serves(n)
        &&& forall|n: NodeId| #[trigger]
            self.producers().contains_key(n) ==> self.producers()[n].target() == Party::Node(n)
    }

    /// The table holds the channels of exactly the given nodes: ends and a
    /// producing end for each of them and for no other identifier, and for each
    /// node one outbound producing end per neighbor.
    pub open spec fn woven(&self, nodes: Seq<NodeSpec>) -> bool {
        &&& forall|n: NodeId| #[trigger] self.ends().contains_key(n) <==> declares(nodes, n)
        &&& forall|n: NodeId| #[trigger] self.producers().contains_key(n) <==> declares(nodes, n)
        &&& forall|p: int|
            0 <= p < nodes.len() ==> self.ends()[(#[trigger] nodes[p]).id].links()
                == nodes[p].neighbors.to_set()
    }

    /// Whether the table still holds the ends of `node`.
    pub fn has_ends(&self, node: NodeId) -> (held: bool)
        ensures
            held == self.ends().contains_key(node),
    {
        self.ends.contains_key(&node)
    }

    /// Whether the table holds a producing end towards `node`.
    pub fn has_producer(&self, node: NodeId) -> (held: bool)
        ensures
            held == self.producers().contains_key(node),
    {
        self.producers.contains_key(&node)
    }

    /// Number of nodes whose inbound consuming end the table holds.
    pub fn inbound_count(&self) -> (count: usize)
        ensures
            count == self.ends().dom().len(),
    {
        self.ends.len()
    }

    /// Number of outbound producing ends that the table holds for the nodes of
    /// `topology`: the directed edges not handed out yet.
    pub fn edge_count(&self, topology: &Topology) -> (count: usize)
        requires
            topology.wf(),
        ensures
            count == edges_held(self.ends(), topology.nodes()),
    {
        let ghost nodes = topology.nodes();
        let records = topology.records();
        proof {
            lemma_node_count_bounded(nodes);
        }
        let mut count: usize = 0;
        let mut p: usize = 0;
        while p < records.len()
            invariant
                p <= records.len(),
                records.len() <= ID_SPACE,
                decl_views(records@) == nodes,
                count == edges_held(self.ends(), nodes.take(p as int)),
                count <= p * ID_SPACE,
            decreases records.len() - p,
        {
            proof {
                assert(nodes.take(p + 1).drop_last() =~= nodes.take(p as int));
                assert(nodes.take(p + 1).last() == records@[p as int]@);
            }
            match self.ends.get(&records[p].id) {
                Some(ends) => {
                    proof {
                        lemma_id_set_bounded(ends.links());
                    }
                    count = count + ends.link_count();
                },
                None => {},
            }
            p = p + 1;
        }
        proof {
            assert(nodes.take(records.len() as int) =~= nodes);
        }
        count
    }

    /// Moves the ends of `node` out of the table; `None` when it holds none.
    pub fn take_ends(&mut self, node: NodeId) -> (taken: Option<MessageEnds<P>>)
        ensures
            taken == if old(self).ends().contains_key(node) {
                Some(old(self).ends()[node])
            } else {
                None
            },
            final(self).ends() == old(self).ends().remove(node),
            final(self).producers() == old(self).producers(),
    {
        self.ends.remove(&node)
    }

    /// A new producing end towards `node`; `None` when the table knows no
    /// channel of that node.
    pub fn producer(&self, node: NodeId) -> (copy: Option<Producer<P>>)
        ensures
            copy is Some <==> self.producers().contains_key(node),
            copy matches Some(producer) ==> producer.target() == self.producers()[node].target(),
    {
        match self.producers.get(&node) {
            Some(producer) => Some(producer.duplicate()),
            None => None,
        }
    }
}

/// Opens the channels of a topology: one inbound channel per node, and for
/// every node one producing end per neighbor.
///
/// A topology is valid, so every neighbor has an inbound channel to take a
/// producing end from.
pub fn weave<P>(topology: &Topology) -> (table: ChannelTable<P>)
    requires
        topology.wf(),
    ensures
        table.wf(),
        table.woven(topology.nodes()),
        table.ends().dom().len() == topology.nodes().len(),
        edges_held(table.ends(), topology.nodes()) == degree_sum(topology.nodes()),
{
    let ghost nodes = topology.nodes();
    let records = topology.records();
    let mut producers: HashMap<NodeId, Producer<P>> = HashMap::new();
    let mut consumers: HashMap<NodeId, Consumer<P>> = HashMap::new();
    let mut p: usize = 0;
    while p < records.len()
        invariant
            p <= records.len(),
            decl_views(records@) == nodes,
            forall|n: NodeId| #[trigger]
                producers@.contains_key(n) <==> declares(nodes.take(p as int), n),
            forall|n: NodeId| #[trigger]
                consumers@.contains_key(n) <==> declares(nodes.take(p as int), n),
            forall|n: NodeId| #[trigger]
                producers@.contains_key(n) ==> producers@[n].target() == Party::Node(n),
            forall|n: NodeId| #[trigger]
                consumers@.contains_key(n) ==> consumers@[n].owner() == Party::Node(n),
        decreases records.len() - p,
    {
        let id = records[p].id;
        let (producer, consumer) = open_channel::<P>(Party::Node(id));
        producers.insert(id, producer);
        consumers.insert(id, consumer);
        proof {
            lemma_declares_step(nodes, p as int);
        }
        p = p + 1;
    }
    proof {
        assert(nodes.take(records.len() as int) =~= nodes);
    }
    let mut ends: HashMap<NodeId, MessageEnds<P>> = HashMap::new();
    let mut p: usize = 0;
    while p < records.len()
        invariant
            p <= records.len(),
            decl_views(records@) == nodes,
            valid(nodes),
            forall|n: NodeId| #[trigger] producers@.contains_key(n) <==> declares(nodes, n),
            forall|n: NodeId| #[trigger]
                producers@.contains_key(n) ==> producers@[n].target() == Party::Node(n),
            forall|q: int|
                p <= q < nodes.len() ==> consumers@.contains_key((#[trigger] nodes[q]).id),
            forall|n: NodeId| #[trigger]
                consumers@.contains_key(n) ==> consumers@[n].owner() == Party::Node(n),
            forall|n: NodeId| #[trigger]
                ends@.contains_key(n) <==> declares(nodes.take(p as int), n),
            forall|n: NodeId| #[trigger] ends@.contains_key(n) ==> ends@[n].serves(n),
            forall|q: int|
                0 <= q < p ==> ends@[(#[trigger] nodes[q]).id].links()
                    == nodes[q].neighbors.to_set(),
        decreases records.len() - p,
    {
        let decl = &records[p];
        let id = decl.id;
        proof {
            assert(nodes[p as int] == decl@);
        }
        let mut outbound: HashMap<NodeId, Producer<P>> = HashMap::new();
        let mut k: usize = 0;
        while k < decl.neighbors.len()
            invariant
                k <= decl.neighbors.len(),
                p < nodes.len(),
                nodes[p as int] == decl@,
                valid(nodes),
                forall|n: NodeId| #[trigger] producers@.contains_key(n) <==> declares(nodes, n),
                forall|n: NodeId| #[trigger]
                    producers@.contains_key(n) ==> producers@[n].target() == Party::Node(n),
                outbound@.dom() =~= decl.neighbors@.take(k as int).to_set(),
                forall|j: NodeId| #[trigger]
                    outbound@.contains_key(j) ==> outbound@[j].target() == Party::Node(j),
            decreases decl.neighbors.len() - k,
        {
            let neighbor = decl.neighbors[k];
            proof {
                assert(!dangling(nodes, p as int, k as int));
                assert(producers@.contains_key(neighbor));
                lemma_prefix_set_step(decl.neighbors@, k as int);
            }
            let producer = producers.get(&neighbor).unwrap().duplicate();
            outbound.insert(neighbor, producer);
            k = k + 1;
        }
        proof {
            assert(decl.neighbors@.take(decl.neighbors.len() as int) =~= decl.neighbors@);
            assert(consumers@.contains_key(nodes[p as int].id));
        }
        let inbound = consumers.remove(&id).unwrap();
        let ghost ends_before = ends@;
        ends.insert(id, MessageEnds { inbound, outbound });
        proof {
            lemma_declares_step(nodes, p as int);
            assert forall|q: int| p < q < nodes.len() implies consumers@.contains_key(
                (#[trigger] nodes[q]).id,
            ) by {
                assert(nodes[p as int].id != nodes[q].id);
            }
            assert forall|q: int| 0 <= q < p + 1 implies ends@[(#[trigger] nodes[q]).id].links()
                == nodes[q].neighbors.to_set() by {
                if q < p {
                    assert(nodes[q].id != nodes[p as int].id);
                    assert(ends_before[nodes[q].id].links() == nodes[q].neighbors.to_set());
                }
            }
        }
        p = p + 1;
    }
    let table = ChannelTable { ends, producers };
    proof {
        assert(nodes.take(records.len() as int) =~= nodes);
        lemma_woven_counts(table, nodes);
    }
    table
}

/// The directed edges of the first `len` nodes are all held by a table woven
/// from the network.
proof fn lemma_woven_edges<P>(table: ChannelTable<P>, nodes: Seq<NodeSpec>, len: int)
    requires
        valid(nodes),
        table.woven(nodes),
        0 <= len <= nodes.len(),
    ensures
        edges_held(table.ends(), nodes.take(len)) == degree_sum(nodes.take(len)),
    decreases len,
{
    if len > 0 {
        lemma_woven_edges(table, nodes, len - 1);
        assert(nodes.take(len).drop_last() =~= nodes.take(len - 1));
        let node = nodes[len - 1];
        assert(nodes.take(len).last() == node);
        assert(declares(nodes, node.id));
        node.neighbors.unique_seq_to_set();
    }
}

/// A table woven from a valid network holds exactly one inbound consuming end
/// per node, and as many outbound producing ends as the neighbor sets have
/// entries: one per directed edge.
pub proof fn lemma_woven_counts<P>(table: ChannelTable<P>, nodes: Seq<NodeSpec>)
    requires
        valid(nodes),
        table.woven(nodes),
    ensures
        table.ends().dom().finite(),
        table.ends().dom().len() == nodes.len(),
        edges_held(table.ends(), nodes) == degree_sum(nodes),
{
    lemma_node_count_bounded(nodes);
    let ids = ids_of(nodes);
    assert(ids.to_set() =~= table.ends().dom());
    ids.unique_seq_to_set();
    vstd::seq_lib::seq_to_set_is_finite(ids);
    lemma_woven_edges(table, nodes, nodes.len() as int);
    assert(nodes.take(nodes.len() as int) =~= nodes);
}

} // verus!
