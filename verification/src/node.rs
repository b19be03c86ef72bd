//! Nodes of the pool and the roles they can serve.

use crate::ident::Identifier;
use vstd::prelude::*;

verus! {

/// Number of distinct roles that a capability set can hold. A role whose
/// index is not below this bound can be served by no node.
pub const MAX_ROLES: u8 = 64;

/// A role inside a committee, named by a small index.
#[derive(Clone, Copy, Debug, PartialEq, Eq, Structural, Hash)]
pub struct Role(pub u8);

/// Whether bit `i` of `mask` is set; no bit at or above 64 is.
pub open spec fn bit_is_set(mask: u64, i: u8) -> bool {
    i < 64 && (mask >> (i as u64)) & 1 == 1
}

/// A participant of the pool, as the registry reports it.
#[derive(Clone, Copy, Debug, PartialEq, Eq, Structural)]
pub struct Node {
    /// Identity of the node.
    pub id: Identifier,
    /// Bit `r` is set when the node declares that it can serve role `r`.
    pub capabilities: u64,
    /// Stake of the node.
    pub weight: u64,
    /// Whether the registry last saw the node alive.
    pub live: bool,
}

proof fn lemma_set_bit(mask: u64, i: u64, j: u64)
    by (bit_vector)
    requires
        i < 64,
        j < 64,
    ensures
        ((mask | (1u64 << i)) >> j) & 1 == 1 <==> (j == i || (mask >> j) & 1 == 1),
{
}

proof fn lemma_no_bit(j: u64)
    by (bit_vector)
    requires
        j < 64,
    ensures
        (0u64 >> j) & 1 == 0,
{
}

impl Node {
    /// Whether the node declares that it can serve `role`.
    pub open spec fn serves(self, role: Role) -> bool {
        bit_is_set(self.capabilities, role.0)
    }

    /// A live node of the given stake that declares no capability yet.
    pub fn new(id: Identifier, weight: u64) -> (node: Node)
        ensures
            node.id == id,
            node.weight == weight,
            node.live,
            forall|role: Role| !node.serves(role),
    {
        let node = Node { id, capabilities: 0, weight, live: true };
        proof {
            assert forall|role: Role| !node.serves(role) by {
                if role.0 < 64 {
                    lemma_no_bit(role.0 as u64);
                }
            }
        }
        node
    }

    /// The same node, which now also declares that it can serve `role`. A
    /// role at or above [`MAX_ROLES`] changes nothing.
    pub fn with_capability(self, role: Role) -> (node: Node)
        ensures
            node.id == self.id,
            node.weight == self.weight,
            node.live == self.live,
            forall|other: Role|
                node.serves(other) <==> self.serves(other) || (other == role && role.0 < 64),
    {
        if role.0 >= MAX_ROLES {
            return self;
        }
        let node = Node {
            id: self.id,
            capabilities: self.capabilities | (1u64 << (role.0 as u64)),
            weight: self.weight,
            live: self.live,
        };
        proof {
            assert forall|other: Role|
                node.serves(other) <==> self.serves(other) || (other == role && role.0
                    < 64) by {
                if other.0 < 64 {
                    lemma_set_bit(self.capabilities, role.0 as u64, other.0 as u64);
                }
            }
        }
        node
    }

    /// The same node with the given liveness.
    pub fn with_liveness(self, live: bool) -> (node: Node)
        ensures
            node == (Node { live, ..self }),
    {
        Node { id: self.id, capabilities: self.capabilities, weight: self.weight, live }
    }

    /// Decides whether the node declares that it can serve `role`.
    pub fn can_serve(&self, role: Role) -> (r: bool)
        ensures
            r == self.serves(role),
    {
        role.0 < MAX_ROLES && (self.capabilities >> (role.0 as u64)) & 1 == 1
    }
}

} // verus!
