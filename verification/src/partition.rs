//! Order-based partition of the nodes of one class into roles.
//!
//! The declared sequence of a class is cut into consecutive groups, one per
//! listed role. Every group gets the same share of the sequence; what the
//! division leaves over goes to one designated group.

use crate::topology::NodeClass;
use vstd::prelude::*;

verus! {

/// What a node runs as once the network is built.
#[derive(Clone, Copy, Debug, PartialEq, Eq, Structural)]
pub enum Role {
    Router,
    ChatClient,
    MediaClient,
    TextServer,
    MediaServer,
    CommunicationServer,
}

/// The class whose declared nodes may take the role.
pub open spec fn role_class(role: Role) -> NodeClass {
    match role {
        Role::Router => NodeClass::Router,
        Role::ChatClient | Role::MediaClient => NodeClass::Client,
        Role::TextServer | Role::MediaServer | Role::CommunicationServer => NodeClass::Server,
    }
}

/// Position at which group `g` starts when `count` nodes are cut into `groups`
/// groups and group `surplus` takes the remainder.
pub open spec fn group_start(count: nat, groups: nat, surplus: nat, g: nat) -> nat {
    g * (count / groups) + if g > surplus {
        count % groups
    } else {
        0
    }
}

/// Number of nodes in group `g`.
pub open spec fn group_len(count: nat, groups: nat, surplus: nat, g: nat) -> nat {
    count / groups + if g == surplus {
        count % groups
    } else {
        0
    }
}

/// The group that position `index` falls into.
pub open spec fn group_of(count: nat, groups: nat, surplus: nat, index: nat) -> nat {
    let share = count / groups;
    let extra = count % groups;
    if index < surplus * share {
        index / share
    } else if index < surplus * share + share + extra {
        surplus
    } else {
        ((index - extra) / (share as int)) as nat
    }
}

/// Position `index` lies in group `g`.
pub open spec fn in_group(count: nat, groups: nat, surplus: nat, g: nat, index: nat) -> bool {
    group_start(count, groups, surplus, g) <= index < group_start(count, groups, surplus, g)
        + group_len(count, groups, surplus, g)
}

proof fn lemma_quotient_bounds(x: int, d: int)
    requires
        0 <= x,
        0 < d,
    ensures
        0 <= x / d,
        (x / d) * d <= x < (x / d) * d + d,
{
    vstd::arithmetic::div_mod::lemma_fundamental_div_mod(x, d);
    vstd::arithmetic::div_mod::lemma_mod_bound(x, d);
    vstd::arithmetic::div_mod::lemma_div_pos_is_pos(x, d);
    assert(d * (x / d) == (x / d) * d) by (nonlinear_arith);
}

proof fn lemma_scale_ordered(a: int, b: int, d: int)
    requires
        a <= b,
        0 <= d,
    ensures
        a * d <= b * d,
{
    assert(a * d <= b * d) by (nonlinear_arith)
        requires
            a <= b,
            0 <= d,
    ;
}

proof fn lemma_scale_next(a: int, d: int)
    ensures
        (a + 1) * d == a * d + d,
{
    assert((a + 1) * d == a * d + d) by (nonlinear_arith);
}

/// The groups tile the sequence: the first starts at 0, each ends where the
/// next starts, and the last ends at `count`.
pub proof fn lemma_groups_tile(count: nat, groups: nat, surplus: nat, g: nat)
    requires
        0 < groups,
        surplus < groups,
        g < groups,
    ensures
        group_start(count, groups, surplus, 0) == 0,
        group_start(count, groups, surplus, g) + group_len(count, groups, surplus, g)
            == group_start(count, groups, surplus, g + 1),
        group_start(count, groups, surplus, groups) == count,
{
    let share = count / groups;
    lemma_scale_next(g as int, share as int);
    vstd::arithmetic::div_mod::lemma_fundamental_div_mod(count as int, groups as int);
    assert(0 * share == 0) by (nonlinear_arith);
    assert(groups * share == (groups as int) * (count as int / groups as int));
}

/// Groups start in order.
pub proof fn lemma_group_start_ordered(count: nat, groups: nat, surplus: nat, g: nat, h: nat)
    requires
        0 < groups,
        g <= h,
    ensures
        group_start(count, groups, surplus, g) <= group_start(count, groups, surplus, h),
{
    lemma_scale_ordered(g as int, h as int, (count / groups) as int);
}

/// `group_of` names a group, and the position lies in it.
pub proof fn lemma_group_of(count: nat, groups: nat, surplus: nat, index: nat)
    requires
        0 < groups,
        surplus < groups,
        index < count,
    ensures
        group_of(count, groups, surplus, index) < groups,
        in_group(count, groups, surplus, group_of(count, groups, surplus, index), index),
{
    let share = count / groups;
    let extra = count % groups;
    let g = group_of(count, groups, surplus, index);
    vstd::arithmetic::div_mod::lemma_fundamental_div_mod(count as int, groups as int);
    vstd::arithmetic::div_mod::lemma_mod_bound(count as int, groups as int);
    assert(groups * share == (groups as int) * (count as int / groups as int));
    assert(count == groups * share + extra);
    if index < surplus * share {
        assert(share > 0) by (nonlinear_arith)
            requires
                index < surplus * share,
        ;
        lemma_quotient_bounds(index as int, share as int);
        lemma_scale_next(g as int, share as int);
        if g >= surplus {
            lemma_scale_ordered(surplus as int, g as int, share as int);
        }
    } else if index < surplus * share + share + extra {
    } else {
        if share == 0 {
            assert(surplus * share == 0) by (nonlinear_arith)
                requires
                    share == 0,
            ;
            assert(groups * share == 0) by (nonlinear_arith)
                requires
                    share == 0,
            ;
        }
        lemma_quotient_bounds(index - extra, share as int);
        lemma_scale_next(g as int, share as int);
        lemma_scale_next(surplus as int, share as int);
        if g <= surplus {
            lemma_scale_ordered(g as int + 1, surplus as int + 1, share as int);
        }
        if g >= groups {
            lemma_scale_ordered(groups as int, g as int, share as int);
        }
    }
}

/// A position lies in one group only.
pub proof fn lemma_group_unique(count: nat, groups: nat, surplus: nat, index: nat, g: nat)
    requires
        0 < groups,
        surplus < groups,
        index < count,
        g < groups,
        in_group(count, groups, surplus, g, index),
    ensures
        g == group_of(count, groups, surplus, index),
{
    let h = group_of(count, groups, surplus, index);
    lemma_group_of(count, groups, surplus, index);
    lemma_groups_tile(count, groups, surplus, g);
    lemma_groups_tile(count, groups, surplus, h);
    if g < h {
        lemma_group_start_ordered(count, groups, surplus, g + 1, h);
    }
    if h < g {
        lemma_group_start_ordered(count, groups, surplus, h + 1, g);
    }
}

/// The partition preserves order: a later position never falls into an
/// earlier group.
pub proof fn lemma_group_of_monotonic(count: nat, groups: nat, surplus: nat, i: nat, j: nat)
    requires
        0 < groups,
        surplus < groups,
        i <= j,
        j < count,
    ensures
        group_of(count, groups, surplus, i) <= group_of(count, groups, surplus, j),
{
    let g = group_of(count, groups, surplus, i);
    let h = group_of(count, groups, surplus, j);
    lemma_group_of(count, groups, surplus, i);
    lemma_group_of(count, groups, surplus, j);
    lemma_groups_tile(count, groups, surplus, h);
    if h < g {
        lemma_group_start_ordered(count, groups, surplus, h + 1, g);
    }
}

/// A quotient lies between two bounds when the dividend lies between their
/// multiples.
proof fn lemma_quotient_is(x: int, d: int, q: int)
    requires
        0 <= x,
        0 < d,
        q * d <= x < q * d + d,
    ensures
        x / d == q,
{
    let r = x / d;
    lemma_quotient_bounds(x, d);
    if r < q {
        lemma_scale_ordered(r + 1, q, d);
        lemma_scale_next(r, d);
    }
    if q < r {
        lemma_scale_ordered(q + 1, r, d);
        lemma_scale_next(q, d);
    }
}

/// Two groups with the second taking the remainder: the first half of the
/// sequence, rounded down, is the first group.
pub proof fn lemma_halves(count: nat, index: nat)
    requires
        index < count,
    ensures
        group_of(count, 2, 1, index) == if index < count / 2 {
            0nat
        } else {
            1nat
        },
{
    let share = count / 2;
    vstd::arithmetic::div_mod::lemma_fundamental_div_mod(count as int, 2);
    assert(1 * share == share) by (nonlinear_arith);
    if index < share {
        assert(0 * (share as int) == 0) by (nonlinear_arith);
        lemma_quotient_is(index as int, share as int, 0);
    }
}

/// Three groups with the first taking the remainder: counting down from the
/// end of the sequence, the last third, rounded down, is the third group, the
/// third before it the second, and the rest the first.
pub proof fn lemma_thirds(count: nat, index: nat)
    requires
        index < count,
    ensures
        group_of(count, 3, 0, index) == if count - index > 2 * (count / 3) {
            0nat
        } else if count - index > count / 3 {
            1nat
        } else {
            2nat
        },
{
    let share = count / 3;
    let extra = count % 3;
    vstd::arithmetic::div_mod::lemma_fundamental_div_mod(count as int, 3);
    assert(0 * share == 0) by (nonlinear_arith);
    if index >= share + extra {
        assert(1 * (share as int) == share) by (nonlinear_arith);
        assert(2 * (share as int) == share + share) by (nonlinear_arith);
        if index - extra < 2 * share {
            lemma_quotient_is(index - extra, share as int, 1);
        } else {
            lemma_quotient_is(index - extra, share as int, 2);
        }
    }
}

/// The class whose declared nodes may take the role.
pub fn class_of(role: Role) -> (class: NodeClass)
    ensures
        class == role_class(role),
{
    match role {
        Role::Router => NodeClass::Router,
        Role::ChatClient | Role::MediaClient => NodeClass::Client,
        Role::TextServer | Role::MediaServer | Role::CommunicationServer => NodeClass::Server,
    }
}

/// Computes the group that a position falls into.
fn group_index(count: usize, groups: usize, surplus: usize, index: usize) -> (g: usize)
    requires
        0 < groups,
        surplus < groups,
        index < count,
    ensures
        g == group_of(count as nat, groups as nat, surplus as nat, index as nat),
{
    let share = count / groups;
    let extra = count % groups;
    proof {
        vstd::arithmetic::div_mod::lemma_fundamental_div_mod(count as int, groups as int);
        assert(groups * share == (groups as int) * (count as int / groups as int));
        lemma_scale_ordered(surplus as int, groups as int, share as int);
        lemma_scale_ordered(1, groups as int, share as int);
    }
    let head = surplus * share;
    if index < head {
        proof {
            assert(share > 0) by (nonlinear_arith)
                requires
                    index < surplus * share,
            ;
        }
        index / share
    } else if index - head < share + extra {
        surplus
    } else {
        proof {
            if share == 0 {
                assert(groups * share == 0) by (nonlinear_arith)
                    requires
                        share == 0,
                ;
            }
        }
        (index - extra) / share
    }
}

/// How the declared nodes of one class are cut into roles.
#[derive(Debug)]
pub struct Partition {
    class: NodeClass,
    roles: Vec<Role>,
    surplus: usize,
}

impl Partition {
    /// The class whose nodes the partition cuts.
    pub closed spec fn class(&self) -> NodeClass {
        self.class
    }

    /// The roles of the groups, in order.
    pub closed spec fn roles(&self) -> Seq<Role> {
        self.roles@
    }

    /// The group that takes what the division leaves over.
    pub closed spec fn surplus(&self) -> nat {
        self.surplus as nat
    }

    /// There is a group, the surplus group is one of them, and every role
    /// belongs to the class.
    pub open spec fn wf(&self) -> bool {
        &&& 0 < self.roles().len()
        &&& self.surplus() < self.roles().len()
        &&& forall|g: int|
            0 <= g < self.roles().len() ==> role_class(#[trigger] self.roles()[g]) == self.class()
    }

    /// The role of the node at position `index` among `count` nodes of the class.
    pub open spec fn role_of(&self, count: nat, index: nat) -> Role {
        self.roles()[group_of(count, self.roles().len(), self.surplus(), index) as int]
    }

    /// A partition of the nodes of `class` into one group per entry of `roles`,
    /// group `surplus` taking the remainder. `None` when there is no role, when
    /// `surplus` names no group, or when a role belongs to another class.
    pub fn new(class: NodeClass, roles: Vec<Role>, surplus: usize) -> (partition: Option<Partition>)
        ensures
            partition is Some <==> {
                &&& surplus < roles.len()
                &&& forall|g: int|
                    0 <= g < roles.len() ==> role_class(#[trigger] roles@[g]) == class
            },
            partition matches Some(p) ==> {
                &&& p.wf()
                &&& p.class() == class
                &&& p.roles() == roles@
                &&& p.surplus() == surplus
            },
    {
        if surplus >= roles.len() {
            return None;
        }
        let mut g: usize = 0;
        while g < roles.len()
            invariant
                g <= roles.len(),
                forall|h: int| 0 <= h < g ==> role_class(#[trigger] roles@[h]) == class,
            decreases roles.len() - g,
        {
            if class_of(roles[g]) != class {
                return None;
            }
            g = g + 1;
        }
        Some(Partition { class, roles, surplus })
    }

    /// Every routing node runs as a router.
    pub fn routers() -> (partition: Partition)
        ensures
            partition.wf(),
            partition.class() == NodeClass::Router,
            partition.roles() == seq![Role::Router],
            partition.surplus() == 0,
    {
        let mut roles: Vec<Role> = Vec::new();
        roles.push(Role::Router);
        proof {
            assert(roles@ =~= seq![Role::Router]);
        }
        Partition { class: NodeClass::Router, roles, surplus: 0 }
    }

    /// The first half of the clients, rounded down, are chat clients; the rest
    /// are media clients.
    pub fn clients() -> (partition: Partition)
        ensures
            partition.wf(),
            partition.class() == NodeClass::Client,
            partition.roles() == seq![Role::ChatClient, Role::MediaClient],
            partition.surplus() == 1,
    {
        let mut roles: Vec<Role> = Vec::new();
        roles.push(Role::ChatClient);
        roles.push(Role::MediaClient);
        proof {
            assert(roles@ =~= seq![Role::ChatClient, Role::MediaClient]);
        }
        Partition { class: NodeClass::Client, roles, surplus: 1 }
    }

    /// The last third of the servers, rounded down, are communication servers,
    /// the third before them media servers, and the rest text servers.
    pub fn servers() -> (partition: Partition)
        ensures
            partition.wf(),
            partition.class() == NodeClass::Server,
            partition.roles() == seq![
                Role::TextServer,
                Role::MediaServer,
                Role::CommunicationServer,
            ],
            partition.surplus() == 0,
    {
        let mut roles: Vec<Role> = Vec::new();
        roles.push(Role::TextServer);
        roles.push(Role::MediaServer);
        roles.push(Role::CommunicationServer);
        proof {
            assert(roles@ =~= seq![Role::TextServer, Role::MediaServer, Role::CommunicationServer]);
        }
        Partition { class: NodeClass::Server, roles, surplus: 0 }
    }

    /// The role of the node at position `index` among `count` declared nodes of
    /// the class; `None` when there is no such position.
    pub fn role_at(&self, count: usize, index: usize) -> (role: Option<Role>)
        requires
            self.wf(),
        ensures
            role == if index < count {
                Some(self.role_of(count as nat, index as nat))
            } else {
                None
            },
    {
        if index >= count {
            return None;
        }
        Some(self.role_for(count, index))
    }

    /// The role of the node at position `index` among `count` declared nodes of
    /// the class.
    pub(crate) fn role_for(&self, count: usize, index: usize) -> (role: Role)
        requires
            self.wf(),
            index < count,
        ensures
            role == self.role_of(count as nat, index as nat),
    {
        let g = group_index(count, self.roles.len(), self.surplus, index);
        proof {
            lemma_group_of(count as nat, self.roles@.len(), self.surplus as nat, index as nat);
        }
        self.roles[g]
    }

    /// The class whose nodes the partition cuts.
    pub fn node_class(&self) -> (class: NodeClass)
        ensures
            class == self.class(),
    {
        self.class
    }
}

} // verus!
