//! The validated, in-memory model of the network: who the nodes are, what class
//! each one was declared with, and which neighbors it sends to.

use std::collections::HashMap;
use vstd::prelude::*;

verus! {

/// Identifier of a node, unique across the whole network whatever the class.
pub type NodeId = u8;

/// Number of distinct node identifiers.
pub const ID_SPACE: usize = 256;

/// The class a node is declared with in the topology description.
#[derive(Clone, Copy, Debug, PartialEq, Eq, Structural)]
pub enum NodeClass {
    Router,
    Client,
    Server,
}

/// One node as the topology description declares it.
#[derive(Debug)]
pub struct NodeDecl {
    pub id: NodeId,
    pub class: NodeClass,
    pub neighbors: Vec<NodeId>,
}

/// Mathematical model of a declared node.
pub struct NodeSpec {
    pub id: NodeId,
    pub class: NodeClass,
    pub neighbors: Seq<NodeId>,
}

impl View for NodeDecl {
    type V = NodeSpec;

    open spec fn view(&self) -> NodeSpec {
        NodeSpec { id: self.id, class: self.class, neighbors: self.neighbors@ }
    }
}

/// The models of a sequence of declarations, in the same order.
pub open spec fn decl_views(decls: Seq<NodeDecl>) -> Seq<NodeSpec> {
    Seq::new(decls.len(), |i: int| decls[i]@)
}

/// Some node of `nodes` carries the identifier `id`.
pub open spec fn declares(nodes: Seq<NodeSpec>, id: NodeId) -> bool {
    exists|i: int| 0 <= i < nodes.len() && (#[trigger] nodes[i]).id == id
}

/// No two nodes share an identifier.
pub open spec fn ids_distinct(nodes: Seq<NodeSpec>) -> bool {
    forall|i: int, j: int|
        0 <= i < j < nodes.len() ==> (#[trigger] nodes[i]).id != (#[trigger] nodes[j]).id
}

/// Entry `k` of node `i`'s neighbor list names an identifier that no node carries.
pub open spec fn dangling(nodes: Seq<NodeSpec>, i: int, k: int) -> bool {
    &&& 0 <= i < nodes.len()
    &&& 0 <= k < nodes[i].neighbors.len()
    &&& !declares(nodes, nodes[i].neighbors[k])
}

/// Every identifier referenced as a neighbor belongs to a declared node.
pub open spec fn neighbors_declared(nodes: Seq<NodeSpec>) -> bool {
    forall|i: int, k: int| !dangling(nodes, i, k)
}

/// Every neighbor list is a set: no identifier occurs in it twice.
pub open spec fn neighbors_are_sets(nodes: Seq<NodeSpec>) -> bool {
    forall|i: int| 0 <= i < nodes.len() ==> (#[trigger] nodes[i]).neighbors.no_duplicates()
}

/// Number of nodes of the given class.
pub open spec fn class_count(nodes: Seq<NodeSpec>, class: NodeClass) -> nat
    decreases nodes.len(),
{
    if nodes.len() == 0 {
        0
    } else {
        class_count(nodes.drop_last(), class) + if nodes.last().class == class {
            1nat
        } else {
            0nat
        }
    }
}

/// Sum of the lengths of all neighbor lists: the number of directed edges.
pub open spec fn degree_sum(nodes: Seq<NodeSpec>) -> nat
    decreases nodes.len(),
{
    if nodes.len() == 0 {
        0
    } else {
        degree_sum(nodes.drop_last()) + nodes.last().neighbors.len()
    }
}

/// The elements of `s` in order of first occurrence, each kept once.
pub open spec fn first_occurrences(s: Seq<NodeId>) -> Seq<NodeId>
    decreases s.len(),
{
    if s.len() == 0 {
        Seq::empty()
    } else {
        let kept = first_occurrences(s.drop_last());
        if kept.contains(s.last()) {
            kept
        } else {
            kept.push(s.last())
        }
    }
}

/// A declared node with its neighbor list reduced to a set.
pub open spec fn normalized_node(node: NodeSpec) -> NodeSpec {
    NodeSpec { id: node.id, class: node.class, neighbors: first_occurrences(node.neighbors) }
}

/// The declared nodes, each with its neighbor list reduced to a set.
pub open spec fn normalized(nodes: Seq<NodeSpec>) -> Seq<NodeSpec> {
    Seq::new(nodes.len(), |i: int| normalized_node(nodes[i]))
}

/// `first_occurrences` keeps exactly the elements of its argument, each once.
pub proof fn lemma_first_occurrences(s: Seq<NodeId>)
    ensures
        first_occurrences(s).no_duplicates(),
        first_occurrences(s).len() <= s.len(),
        forall|x: NodeId| first_occurrences(s).contains(x) <==> s.contains(x),
    decreases s.len(),
{
    if s.len() > 0 {
        let rest = s.drop_last();
        let kept = first_occurrences(rest);
        lemma_first_occurrences(rest);
        assert forall|x: NodeId| first_occurrences(s).contains(x) <==> s.contains(x) by {
            if s.contains(x) {
                let j = choose|j: int| 0 <= j < s.len() && s[j] == x;
                if j < rest.len() {
                    assert(rest[j] == x);
                    assert(rest.contains(x));
                    if !kept.contains(s.last()) {
                        let h = choose|h: int| 0 <= h < kept.len() && kept[h] == x;
                        assert(kept.push(s.last())[h] == x);
                    }
                } else {
                    if !kept.contains(s.last()) {
                        assert(kept.push(s.last())[kept.len() as int] == x);
                    }
                }
            }
            if first_occurrences(s).contains(x) {
                let h = choose|h: int|
                    0 <= h < first_occurrences(s).len() && first_occurrences(s)[h] == x;
                if h < kept.len() {
                    assert(kept[h] == x);
                    assert(kept.contains(x));
                    assert(rest.contains(x));
                    let j = choose|j: int| 0 <= j < rest.len() && rest[j] == x;
                    assert(s[j] == x);
                } else {
                    assert(s[s.len() - 1] == x);
                }
            }
        }
    }
}

/// A duplicate-free list of identifiers is no longer than the identifier space.
pub proof fn lemma_distinct_ids_bounded(s: Seq<NodeId>)
    requires
        s.no_duplicates(),
    ensures
        s.len() <= ID_SPACE,
{
    let widen = |x: NodeId| x as int;
    let wide = s.map_values(widen);
    assert(vstd::relations::injective(widen));
    s.lemma_no_duplicates_injective(widen);
    wide.unique_seq_to_set();
    vstd::set_lib::lemma_int_range(0, 256);
    assert(wide.to_set().subset_of(vstd::set_lib::set_int_range(0, 256))) by {
        assert forall|v: int| wide.to_set().contains(v) implies 0 <= v < 256 by {
            let j = choose|j: int| 0 <= j < wide.len() && wide[j] == v;
            assert(wide[j] == s[j] as int);
        }
    }
    vstd::set_lib::lemma_len_subset(wide.to_set(), vstd::set_lib::set_int_range(0, 256));
}

/// A finite set of identifiers is no larger than the identifier space.
pub proof fn lemma_id_set_bounded(s: Set<NodeId>)
    requires
        s.finite(),
    ensures
        s.len() <= ID_SPACE,
{
    let widen = |x: NodeId| x as int;
    let wide = s.map(widen);
    assert(vstd::relations::injective_on(widen, s));
    vstd::set_lib::lemma_map_size(s, wide, widen);
    vstd::set_lib::lemma_int_range(0, 256);
    assert(wide.subset_of(vstd::set_lib::set_int_range(0, 256))) by {
        assert forall|v: int| wide.contains(v) implies 0 <= v < 256 by {
            let x = choose|x: NodeId| s.contains(x) && v == widen(x);
        }
    }
    vstd::set_lib::lemma_len_subset(wide, vstd::set_lib::set_int_range(0, 256));
}

/// The identifiers of the nodes, in declaration order.
pub open spec fn ids_of(nodes: Seq<NodeSpec>) -> Seq<NodeId> {
    Seq::new(nodes.len(), |i: int| nodes[i].id)
}

/// A network with distinct identifiers has no more nodes than identifiers.
pub proof fn lemma_node_count_bounded(nodes: Seq<NodeSpec>)
    requires
        ids_distinct(nodes),
    ensures
        nodes.len() <= ID_SPACE,
        ids_of(nodes).no_duplicates(),
        forall|n: NodeId| ids_of(nodes).contains(n) <==> declares(nodes, n),
{
    let ids = ids_of(nodes);
    assert forall|i: int, j: int| 0 <= i < ids.len() && 0 <= j < ids.len() && i != j implies ids[i]
        != ids[j] by {
        if i < j {
            assert(nodes[i].id != nodes[j].id);
        } else {
            assert(nodes[j].id != nodes[i].id);
        }
    }
    lemma_distinct_ids_bounded(ids);
    assert forall|n: NodeId| ids.contains(n) <==> declares(nodes, n) by {
        if ids.contains(n) {
            let i = choose|i: int| 0 <= i < ids.len() && ids[i] == n;
            assert(nodes[i].id == n);
        }
        if declares(nodes, n) {
            let i = choose|i: int| 0 <= i < nodes.len() && (#[trigger] nodes[i]).id == n;
            assert(ids[i] == n);
        }
    }
}

/// A table with one mark per identifier, none of them set.
fn blank_marks() -> (marks: Vec<bool>)
    ensures
        marks.len() == ID_SPACE,
        forall|x: int| 0 <= x < ID_SPACE ==> !marks[x],
{
    let mut marks: Vec<bool> = Vec::new();
    let mut n: usize = 0;
    while n < ID_SPACE
        invariant
            n <= ID_SPACE,
            marks.len() == n,
            forall|x: int| 0 <= x < n ==> !marks[x],
        decreases ID_SPACE - n,
    {
        marks.push(false);
        n = n + 1;
    }
    marks
}

/// A copy of a list of identifiers.
pub(crate) fn copy_ids(list: &Vec<NodeId>) -> (copy: Vec<NodeId>)
    ensures
        copy@ == list@,
{
    let mut copy: Vec<NodeId> = Vec::new();
    let mut i: usize = 0;
    while i < list.len()
        invariant
            i <= list.len(),
            copy@ == list@.take(i as int),
        decreases list.len() - i,
    {
        copy.push(list[i]);
        proof {
            assert(list@.take(i + 1) =~= list@.take(i as int).push(list@[i as int]));
        }
        i = i + 1;
    }
    proof {
        assert(list@.take(list.len() as int) =~= list@);
    }
    copy
}

/// Reduces a neighbor list to a set, keeping the first occurrence of each identifier.
pub fn neighbor_set(list: &Vec<NodeId>) -> (set: Vec<NodeId>)
    ensures
        set@ == first_occurrences(list@),
{
    let mut marks = blank_marks();
    let mut set: Vec<NodeId> = Vec::new();
    let mut i: usize = 0;
    while i < list.len()
        invariant
            i <= list.len(),
            marks.len() == ID_SPACE,
            set@ == first_occurrences(list@.take(i as int)),
            forall|x: NodeId| marks[x as int] == set@.contains(x),
        decreases list.len() - i,
    {
        let x = list[i];
        proof {
            assert(list@.take(i + 1).drop_last() =~= list@.take(i as int));
            assert(list@.take(i + 1).last() == x);
        }
        if !marks[x as usize] {
            let ghost before = set@;
            set.push(x);
            marks.set(x as usize, true);
            proof {
                assert forall|y: NodeId| marks[y as int] == set@.contains(y) by {
                    if y == x {
                        assert(set@[before.len() as int] == x);
                    } else {
                        if before.contains(y) {
                            let h = choose|h: int| 0 <= h < before.len() && before[h] == y;
                            assert(set@[h] == y);
                        }
                        if set@.contains(y) {
                            let h = choose|h: int| 0 <= h < set@.len() && set@[h] == y;
                            assert(before[h] == y);
                        }
                    }
                }
            }
        }
        i = i + 1;
    }
    proof {
        assert(list@.take(list.len() as int) =~= list@);
    }
    set
}

/// What a sequence of declared nodes must satisfy to be a topology.
pub open spec fn valid(nodes: Seq<NodeSpec>) -> bool {
    &&& ids_distinct(nodes)
    &&& neighbors_declared(nodes)
    &&& neighbors_are_sets(nodes)
}

/// Position `j` holds the first node whose identifier an earlier node already carries.
pub open spec fn first_duplicate(nodes: Seq<NodeSpec>, j: int) -> bool {
    &&& 0 <= j < nodes.len()
    &&& ids_distinct(nodes.take(j))
    &&& declares(nodes.take(j), nodes[j].id)
}

/// Entry `k` of node `i` is the first neighbor reference, in declaration order,
/// to an identifier that no node carries.
pub open spec fn first_dangling(nodes: Seq<NodeSpec>, i: int, k: int) -> bool {
    &&& dangling(nodes, i, k)
    &&& forall|a: int, b: int| dangling(nodes, a, b) ==> i < a || (i == a && k <= b)
}

/// Why a declared network is not a topology.
#[derive(Clone, Copy, Debug, PartialEq, Eq, Structural)]
pub enum TopologyError {
    /// Fewer routing nodes than the configured minimum.
    Undersized { routers: usize, minimum: usize },
    /// An identifier that an earlier node already carries.
    DuplicateId { id: NodeId },
    /// A neighbor reference to an identifier that no node carries.
    UnknownNeighbor { node: NodeId, neighbor: NodeId },
}

/// What validation answers for the declared nodes and a minimum number of routers.
pub open spec fn validation(nodes: Seq<NodeSpec>, min_routers: nat, result: Result<
    Seq<NodeSpec>,
    TopologyError,
>) -> bool {
    let routers = class_count(nodes, NodeClass::Router);
    match result {
        Err(TopologyError::Undersized { routers: found, minimum }) => {
            &&& routers < min_routers
            &&& found == routers
            &&& minimum == min_routers
        },
        Err(TopologyError::DuplicateId { id }) => {
            &&& routers >= min_routers
            &&& exists|j: int| first_duplicate(nodes, j) && (#[trigger] nodes[j]).id == id
        },
        Err(TopologyError::UnknownNeighbor { node, neighbor }) => {
            &&& routers >= min_routers
            &&& ids_distinct(nodes)
            &&& exists|i: int, k: int|
                first_dangling(nodes, i, k) && nodes[i].id == node && (
                #[trigger] nodes[i].neighbors[k]) == neighbor
        },
        Ok(accepted) => {
            &&& routers >= min_routers
            &&& ids_distinct(nodes)
            &&& neighbors_declared(nodes)
            &&& accepted == normalized(nodes)
        },
    }
}

/// Reducing neighbor lists to sets keeps a closed, duplicate-free network valid.
pub proof fn lemma_normalized_valid(nodes: Seq<NodeSpec>)
    requires
        ids_distinct(nodes),
        neighbors_declared(nodes),
    ensures
        valid(normalized(nodes)),
        forall|x: NodeId| declares(normalized(nodes), x) <==> declares(nodes, x),
{
    let norm = normalized(nodes);
    assert forall|x: NodeId| declares(norm, x) <==> declares(nodes, x) by {
        if declares(norm, x) {
            let i = choose|i: int| 0 <= i < norm.len() && (#[trigger] norm[i]).id == x;
            assert(nodes[i].id == x);
        }
        if declares(nodes, x) {
            let i = choose|i: int| 0 <= i < nodes.len() && (#[trigger] nodes[i]).id == x;
            assert(norm[i].id == x);
        }
    }
    assert forall|i: int, j: int| 0 <= i < j < norm.len() implies (#[trigger] norm[i]).id != (
    #[trigger] norm[j]).id by {
        assert(nodes[i].id != nodes[j].id);
    }
    assert forall|i: int| 0 <= i < norm.len() implies (
    #[trigger] norm[i]).neighbors.no_duplicates() by {
        lemma_first_occurrences(nodes[i].neighbors);
    }
    assert forall|i: int, k: int| !dangling(norm, i, k) by {
        if 0 <= i < norm.len() && 0 <= k < norm[i].neighbors.len() {
            let x = norm[i].neighbors[k];
            lemma_first_occurrences(nodes[i].neighbors);
            assert(first_occurrences(nodes[i].neighbors).contains(x));
            assert(nodes[i].neighbors.contains(x));
            let h = choose|h: int| 0 <= h < nodes[i].neighbors.len() && nodes[i].neighbors[h] == x;
            assert(!dangling(nodes, i, h));
        }
    }
}

/// A prefix holds no more nodes of a class than the whole sequence.
pub proof fn lemma_class_count_prefix(nodes: Seq<NodeSpec>, class: NodeClass, len: int)
    requires
        0 <= len <= nodes.len(),
    ensures
        class_count(nodes.take(len), class) <= class_count(nodes, class),
    decreases nodes.len(),
{
    if len == nodes.len() {
        assert(nodes.take(len) =~= nodes);
    } else {
        assert(nodes.drop_last().take(len) =~= nodes.take(len));
        lemma_class_count_prefix(nodes.drop_last(), class, len);
    }
}

/// Counting one node further adds one exactly when that node has the class.
pub proof fn lemma_class_count_step(nodes: Seq<NodeSpec>, class: NodeClass, index: int)
    requires
        0 <= index < nodes.len(),
    ensures
        class_count(nodes.take(index + 1), class) == class_count(nodes.take(index), class)
            + if nodes[index].class == class {
            1nat
        } else {
            0nat
        },
{
    assert(nodes.take(index + 1).drop_last() =~= nodes.take(index));
}

/// Looking one node further adds that node's identifier to the declared ones.
pub proof fn lemma_declares_step(nodes: Seq<NodeSpec>, p: int)
    requires
        0 <= p < nodes.len(),
    ensures
        forall|n: NodeId|
            declares(nodes.take(p + 1), n) <==> (n == nodes[p].id || declares(nodes.take(p), n)),
{
    let before = nodes.take(p);
    let after = nodes.take(p + 1);
    assert(after[p].id == nodes[p].id);
    assert forall|n: NodeId| declares(after, n) <==> (n == nodes[p].id || declares(before, n)) by {
        if declares(before, n) {
            let a = choose|a: int| 0 <= a < before.len() && (#[trigger] before[a]).id == n;
            assert(after[a].id == n);
        }
        if declares(after, n) && n != nodes[p].id {
            let a = choose|a: int| 0 <= a < after.len() && (#[trigger] after[a]).id == n;
            assert(before[a].id == n);
        }
    }
}

/// Counts the declared nodes of one class.
fn count_class(decls: &Vec<NodeDecl>, class: NodeClass) -> (count: usize)
    ensures
        count == class_count(decl_views(decls@), class),
{
    let ghost nodes = decl_views(decls@);
    let mut count: usize = 0;
    let mut i: usize = 0;
    while i < decls.len()
        invariant
            i <= decls.len(),
            nodes == decl_views(decls@),
            count == class_count(nodes.take(i as int), class),
            count <= i,
        decreases decls.len() - i,
    {
        proof {
            assert(nodes.take(i + 1).drop_last() =~= nodes.take(i as int));
            assert(nodes.take(i + 1).last() == decls@[i as int]@);
        }
        if decls[i].class == class {
            count = count + 1;
        }
        i = i + 1;
    }
    proof {
        assert(nodes.take(decls.len() as int) =~= nodes);
    }
    count
}

/// The validated network: every node's identity, class and neighbor set, in
/// declaration order.
#[derive(Debug)]
pub struct Topology {
    nodes: Vec<NodeDecl>,
}

impl Topology {
    /// The nodes in declaration order.
    pub closed spec fn nodes(&self) -> Seq<NodeSpec> {
        decl_views(self.nodes@)
    }

    /// Identifiers are unique, neighbor lists are sets, and every neighbor is a
    /// declared node.
    pub open spec fn wf(&self) -> bool {
        valid(self.nodes())
    }

    /// Validates declared nodes into a topology.
    ///
    /// The network is refused when it has fewer than `min_routers` routing
    /// nodes, else when an identifier is declared twice, else when a neighbor
    /// list names an identifier that no node carries; each refusal reports the
    /// first offence in declaration order. An accepted network keeps the
    /// declaration order, with every neighbor list reduced to a set. A node
    /// may name itself, and need not be named back by its neighbors.
    pub fn new(decls: Vec<NodeDecl>, min_routers: usize) -> (result: Result<
        Topology,
        TopologyError,
    >)
        ensures
            validation(
                decl_views(decls@),
                min_routers as nat,
                match result {
                    Ok(topology) => Ok(topology.nodes()),
                    Err(error) => Err(error),
                },
            ),
            result matches Ok(topology) ==> topology.wf(),
    {
        let ghost nodes = decl_views(decls@);
        let routers = count_class(&decls, NodeClass::Router);
        if routers < min_routers {
            return Err(TopologyError::Undersized { routers, minimum: min_routers });
        }
        let mut declared = blank_marks();
        let mut j: usize = 0;
        while j < decls.len()
            invariant
                j <= decls.len(),
                nodes == decl_views(decls@),
                declared.len() == ID_SPACE,
                ids_distinct(nodes.take(j as int)),
                forall|x: NodeId| declared[x as int] == declares(nodes.take(j as int), x),
                routers == class_count(nodes, NodeClass::Router),
                routers >= min_routers,
            decreases decls.len() - j,
        {
            let id = decls[j].id;
            if declared[id as usize] {
                proof {
                    assert(first_duplicate(nodes, j as int));
                    assert(nodes[j as int].id == id);
                }
                return Err(TopologyError::DuplicateId { id });
            }
            declared.set(id as usize, true);
            proof {
                let before = nodes.take(j as int);
                let after = nodes.take(j + 1);
                assert(after[j as int].id == id);
                assert forall|a: int, b: int| 0 <= a < b < after.len() implies (
                #[trigger] after[a]).id != (#[trigger] after[b]).id by {
                    if b == j {
                        assert(before[a].id == after[a].id);
                        assert(!declares(before, id));
                    } else {
                        assert(before[a].id != before[b].id);
                    }
                }
                lemma_declares_step(nodes, j as int);
            }
            j = j + 1;
        }
        proof {
            assert(nodes.take(decls.len() as int) =~= nodes);
        }
        let mut accepted: Vec<NodeDecl> = Vec::new();
        let mut i: usize = 0;
        while i < decls.len()
            invariant
                i <= decls.len(),
                nodes == decl_views(decls@),
                declared.len() == ID_SPACE,
                ids_distinct(nodes),
                forall|x: NodeId| declared[x as int] == declares(nodes, x),
                routers == class_count(nodes, NodeClass::Router),
                routers >= min_routers,
                forall|a: int, b: int| a < i ==> !dangling(nodes, a, b),
                accepted.len() == i,
                decl_views(accepted@) == normalized(nodes).take(i as int),
            decreases decls.len() - i,
        {
            let decl = &decls[i];
            let mut k: usize = 0;
            while k < decl.neighbors.len()
                invariant
                    k <= decl.neighbors.len(),
                    i < decls.len(),
                    decl == decls@[i as int],
                    nodes == decl_views(decls@),
                    declared.len() == ID_SPACE,
                    ids_distinct(nodes),
                    forall|x: NodeId| declared[x as int] == declares(nodes, x),
                    routers == class_count(nodes, NodeClass::Router),
                    routers >= min_routers,
                    forall|a: int, b: int| a < i ==> !dangling(nodes, a, b),
                    forall|b: int| b < k ==> !dangling(nodes, i as int, b),
                decreases decl.neighbors.len() - k,
            {
                let neighbor = decl.neighbors[k];
                if !declared[neighbor as usize] {
                    proof {
                        assert(dangling(nodes, i as int, k as int));
                        assert(first_dangling(nodes, i as int, k as int));
                        assert(nodes[i as int].neighbors[k as int] == neighbor);
                    }
                    return Err(TopologyError::UnknownNeighbor { node: decl.id, neighbor });
                }
                k = k + 1;
            }
            let neighbors = neighbor_set(&decl.neighbors);
            let ghost before = accepted@;
            accepted.push(NodeDecl { id: decl.id, class: decl.class, neighbors });
            proof {
                let target = normalized(nodes).take(i + 1);
                assert forall|a: int| 0 <= a < target.len() implies decl_views(accepted@)[a]
                    == target[a] by {
                    if a < i {
                        assert(accepted@[a] == before[a]);
                        assert(decl_views(before)[a] == normalized(nodes).take(i as int)[a]);
                    } else {
                        assert(nodes[a] == decl@);
                    }
                }
                assert(decl_views(accepted@) =~= target);
            }
            i = i + 1;
        }
        proof {
            assert(normalized(nodes).take(decls.len() as int) =~= normalized(nodes));
            lemma_normalized_valid(nodes);
        }
        Ok(Topology { nodes: accepted })
    }

    /// The nodes in declaration order, each with its neighbor set.
    pub fn records(&self) -> (records: &Vec<NodeDecl>)
        ensures
            decl_views(records@) == self.nodes(),
    {
        &self.nodes
    }

    /// Number of nodes of one class.
    pub fn count(&self, class: NodeClass) -> (count: usize)
        ensures
            count == class_count(self.nodes(), class),
    {
        count_class(&self.nodes, class)
    }

    /// Whether a node carries the identifier.
    pub fn contains(&self, id: NodeId) -> (found: bool)
        ensures
            found == declares(self.nodes(), id),
    {
        let ghost nodes = self.nodes();
        let mut p: usize = 0;
        while p < self.nodes.len()
            invariant
                p <= self.nodes.len(),
                nodes == decl_views(self.nodes@),
                !declares(nodes.take(p as int), id),
            decreases self.nodes.len() - p,
        {
            if self.nodes[p].id == id {
                proof {
                    assert(nodes[p as int].id == id);
                }
                return true;
            }
            proof {
                lemma_declares_step(nodes, p as int);
            }
            p = p + 1;
        }
        proof {
            assert(nodes.take(self.nodes.len() as int) =~= nodes);
        }
        false
    }

    /// Number of directed edges: the neighbor sets' sizes added up.
    pub fn edge_count(&self) -> (count: usize)
        requires
            self.wf(),
        ensures
            count == degree_sum(self.nodes()),
    {
        let ghost nodes = self.nodes();
        proof {
            lemma_node_count_bounded(nodes);
        }
        let mut count: usize = 0;
        let mut p: usize = 0;
        while p < self.nodes.len()
            invariant
                p <= self.nodes.len(),
                self.nodes.len() <= ID_SPACE,
                nodes == decl_views(self.nodes@),
                neighbors_are_sets(nodes),
                count == degree_sum(nodes.take(p as int)),
                count <= p * ID_SPACE,
            decreases self.nodes.len() - p,
        {
            proof {
                assert(nodes.take(p + 1).drop_last() =~= nodes.take(p as int));
                assert(nodes.take(p + 1).last() == nodes[p as int]);
                lemma_distinct_ids_bounded(nodes[p as int].neighbors);
            }
            count = count + self.nodes[p].neighbors.len();
            p = p + 1;
        }
        proof {
            assert(nodes.take(self.nodes.len() as int) =~= nodes);
        }
        count
    }

    /// The neighbor set of every node, by the node's identifier.
    pub fn adjacency(&self) -> (adjacency: HashMap<NodeId, Vec<NodeId>>)
        requires
            self.wf(),
        ensures
            forall|n: NodeId| #[trigger] adjacency@.contains_key(n) <==> declares(self.nodes(), n),
            forall|p: int|
                0 <= p < self.nodes().len() ==> adjacency@[(#[trigger] self.nodes()[p]).id]@
                    == self.nodes()[p].neighbors,
    {
        let ghost nodes = self.nodes();
        let mut adjacency: HashMap<NodeId, Vec<NodeId>> = HashMap::new();
        let mut p: usize = 0;
        while p < self.nodes.len()
            invariant
                p <= self.nodes.len(),
                nodes == decl_views(self.nodes@),
                ids_distinct(nodes),
                forall|n: NodeId| #[trigger]
                    adjacency@.contains_key(n) <==> declares(nodes.take(p as int), n),
                forall|q: int|
                    0 <= q < p ==> adjacency@[(#[trigger] nodes[q]).id]@ == nodes[q].neighbors,
            decreases self.nodes.len() - p,
        {
            let id = self.nodes[p].id;
            let neighbors = copy_ids(&self.nodes[p].neighbors);
            let ghost earlier = adjacency@;
            adjacency.insert(id, neighbors);
            proof {
                lemma_declares_step(nodes, p as int);
                assert forall|q: int| 0 <= q < p + 1 implies adjacency@[(#[trigger] nodes[q]).id]@
                    == nodes[q].neighbors by {
                    if q < p {
                        assert(nodes[q].id != nodes[p as int].id);
                        assert(earlier[nodes[q].id]@ == nodes[q].neighbors);
                    }
                }
            }
            p = p + 1;
        }
        proof {
            assert(nodes.take(self.nodes.len() as int) =~= nodes);
        }
        adjacency
    }

    /// Number of nodes.
    pub fn len(&self) -> (len: usize)
        ensures
            len == self.nodes().len(),
    {
        self.nodes.len()
    }
}

} // verus!
