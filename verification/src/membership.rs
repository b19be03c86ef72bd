//! How much the live membership of the pool changed between two snapshots.

use crate::ident::Identifier;
use crate::node::Node;
use vstd::prelude::*;

verus! {

/// The snapshot holds a live node with the identifier `id`.
pub open spec fn is_live_in(nodes: Seq<Node>, id: Identifier) -> bool {
    exists|i: int| 0 <= i < nodes.len() && (#[trigger] nodes[i]).id == id && nodes[i].live
}

/// The nodes that are live in `before` and not live in `after`.
pub open spec fn departed(before: Seq<Node>, after: Seq<Node>) -> Seq<Node> {
    before.filter(|n: Node| n.live && !is_live_in(after, n.id))
}

/// The number of nodes that left the live membership plus the number that
/// joined it.
pub open spec fn membership_delta(before: Seq<Node>, after: Seq<Node>) -> nat {
    departed(before, after).len() + departed(after, before).len()
}

/// Decides whether the snapshot holds a live node with the identifier `id`.
pub fn has_live_node(nodes: &Vec<Node>, id: &Identifier) -> (r: bool)
    ensures
        r == is_live_in(nodes@, *id),
{
    let mut i: usize = 0;
    while i < nodes.len()
        invariant
            i <= nodes@.len(),
            forall|k: int| 0 <= k < i ==> !((#[trigger] nodes@[k]).id == *id && nodes@[k].live),
        decreases nodes@.len() - i,
    {
        if nodes[i].live && nodes[i].id == *id {
            return true;
        }
        i += 1;
    }
    false
}

/// Counts the nodes that are live in `before` and not live in `after`.
pub fn count_departed(before: &Vec<Node>, after: &Vec<Node>) -> (count: usize)
    ensures
        count == departed(before@, after@).len(),
{
    let ghost gone = |n: Node| n.live && !is_live_in(after@, n.id);
    let mut count: usize = 0;
    let mut i: usize = 0;
    assert(before@.take(0).filter(gone) =~= Seq::<Node>::empty()) by {
        reveal(Seq::filter);
    }
    while i < before.len()
        invariant
            i <= before@.len(),
            gone == (|n: Node| n.live && !is_live_in(after@, n.id)),
            count == before@.take(i as int).filter(gone).len(),
            count <= i,
        decreases before@.len() - i,
    {
        let node: Node = before[i];
        let left = node.live && !has_live_node(after, &node.id);
        proof {
            let prefix = before@.take(i as int);
            assert(before@.take(i + 1) =~= prefix.push(node));
            Seq::lemma_filter_push(prefix, node, gone);
            assert(left == gone(node));
        }
        if left {
            count += 1;
        }
        i += 1;
    }
    assert(before@.take(i as int) =~= before@);
    count
}

/// The number of nodes that left the live membership between two snapshots
/// plus the number that joined it, held at the largest number.
pub fn live_delta(before: &Vec<Node>, after: &Vec<Node>) -> (delta: u64)
    ensures
        delta == if membership_delta(before@, after@) > u64::MAX {
            u64::MAX as nat
        } else {
            membership_delta(before@, after@)
        },
{
    let left: u64 = count_departed(before, after) as u64;
    let joined: u64 = count_departed(after, before) as u64;
    if joined > u64::MAX - left {
        u64::MAX
    } else {
        left + joined
    }
}

/// Nothing changed between a snapshot and itself, and the change between
/// two snapshots is the same in both directions.
pub proof fn lemma_membership_delta(before: Seq<Node>, after: Seq<Node>)
    ensures
        membership_delta(before, before) == 0,
        membership_delta(before, after) == membership_delta(after, before),
{
    let gone = |n: Node| n.live && !is_live_in(before, n.id);
    let kept = departed(before, before);
    if kept.len() > 0 {
        before.lemma_filter_pred(gone, 0);
        assert(kept.contains(kept[0]));
        before.lemma_filter_contains_rev(gone, kept[0]);
        let m = choose|m: int| 0 <= m < before.len() && before[m] == kept[0];
        assert(before[m].id == kept[0].id && before[m].live);
    }
}

} // verus!
