//! The ordered list of node constructors, each tagged with the role it builds.
//!
//! The registry holds the tags; a constructor is known by its position in the
//! list, and whoever owns the constructors keeps them in the same order.

use crate::partition::Role;
use crate::topology::NodeId;
use vstd::prelude::*;

verus! {

/// Why the channels or constructors a node needs could not be found.
#[derive(Clone, Copy, Debug, PartialEq, Eq, Structural)]
pub enum WiringError {
    /// The registry holds no constructor number `ordinal` for the role.
    VariantNotFound { role: Role, ordinal: usize },
    /// The channel table holds no channel ends for the node.
    MissingChannel { node: NodeId },
}

/// Number of entries tagged with `role`.
pub open spec fn tag_count(tags: Seq<Role>, role: Role) -> nat
    decreases tags.len(),
{
    if tags.len() == 0 {
        0
    } else {
        tag_count(tags.drop_last(), role) + if tags.last() == role {
            1nat
        } else {
            0nat
        }
    }
}

/// Entry `index` is tagged with `role`, and `ordinal` entries before it are.
pub open spec fn nth_tagged(tags: Seq<Role>, role: Role, ordinal: nat, index: int) -> bool {
    &&& 0 <= index < tags.len()
    &&& tags[index] == role
    &&& tag_count(tags.take(index), role) == ordinal
}

/// A prefix holds no more entries of a role than the whole list.
pub proof fn lemma_tag_count_prefix(tags: Seq<Role>, role: Role, len: int)
    requires
        0 <= len <= tags.len(),
    ensures
        tag_count(tags.take(len), role) <= tag_count(tags, role),
    decreases tags.len(),
{
    if len == tags.len() {
        assert(tags.take(len) =~= tags);
    } else {
        assert(tags.drop_last().take(len) =~= tags.take(len));
        lemma_tag_count_prefix(tags.drop_last(), role, len);
    }
}

/// Counting one entry further adds one exactly when that entry has the role.
pub proof fn lemma_tag_count_step(tags: Seq<Role>, role: Role, index: int)
    requires
        0 <= index < tags.len(),
    ensures
        tag_count(tags.take(index + 1), role) == tag_count(tags.take(index), role) + if tags[index]
            == role {
            1nat
        } else {
            0nat
        },
{
    assert(tags.take(index + 1).drop_last() =~= tags.take(index));
}

/// At most one entry is the `ordinal`-th of its role.
pub proof fn lemma_nth_tagged_unique(tags: Seq<Role>, role: Role, ordinal: nat, i: int, j: int)
    requires
        nth_tagged(tags, role, ordinal, i),
        nth_tagged(tags, role, ordinal, j),
    ensures
        i == j,
{
    if i < j {
        lemma_tag_count_step(tags, role, i);
        assert(tags.take(j).take(i + 1) =~= tags.take(i + 1));
        lemma_tag_count_prefix(tags.take(j), role, i + 1);
    }
    if j < i {
        lemma_tag_count_step(tags, role, j);
        assert(tags.take(i).take(j + 1) =~= tags.take(j + 1));
        lemma_tag_count_prefix(tags.take(i), role, j + 1);
    }
}

/// A fixed, ordered list of constructor tags.
#[derive(Debug)]
pub struct Registry {
    tags: Vec<Role>,
}

impl Registry {
    /// The role each constructor builds, in registration order.
    pub closed spec fn tags(&self) -> Seq<Role> {
        self.tags@
    }

    /// A registry of constructors tagged, in order, with `tags`.
    pub fn new(tags: Vec<Role>) -> (registry: Registry)
        ensures
            registry.tags() == tags@,
    {
        Registry { tags }
    }

    /// Number of registered constructors.
    pub fn len(&self) -> (len: usize)
        ensures
            len == self.tags().len(),
    {
        self.tags.len()
    }

    /// The role that constructor `index` builds; `None` past the end of the list.
    pub fn tag(&self, index: usize) -> (tag: Option<Role>)
        ensures
            tag == if index < self.tags().len() {
                Some(self.tags()[index as int])
            } else {
                None
            },
    {
        if index < self.tags.len() {
            Some(self.tags[index])
        } else {
            None
        }
    }

    /// Position of the `ordinal`-th constructor registered for `role`, counting
    /// from 0. Fails when fewer than `ordinal + 1` constructors build the role.
    pub fn resolve(&self, role: Role, ordinal: usize) -> (found: Result<usize, WiringError>)
        ensures
            found is Ok <==> ordinal < tag_count(self.tags(), role),
            match found {
                Ok(index) => nth_tagged(self.tags(), role, ordinal as nat, index as int),
                Err(error) => {
                    &&& tag_count(self.tags(), role) <= ordinal
                    &&& error == WiringError::VariantNotFound { role, ordinal }
                },
            },
    {
        let mut seen: usize = 0;
        let mut index: usize = 0;
        while index < self.tags.len()
            invariant
                index <= self.tags.len(),
                seen == tag_count(self.tags@.take(index as int), role),
                seen <= ordinal,
                seen <= index,
            decreases self.tags.len() - index,
        {
            proof {
                lemma_tag_count_step(self.tags@, role, index as int);
            }
            if self.tags[index] == role {
                if seen == ordinal {
                    proof {
                        lemma_tag_count_prefix(self.tags@, role, index + 1);
                    }
                    return Ok(index);
                }
                seen = seen + 1;
            }
            index = index + 1;
        }
        proof {
            assert(self.tags@.take(self.tags.len() as int) =~= self.tags@);
        }
        Err(WiringError::VariantNotFound { role, ordinal })
    }
}

} // verus!
