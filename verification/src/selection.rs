//! The selection function: from an epoch seed, a snapshot of the node pool
//! and the shape of a task to the committee of the task.
//!
//! The slots of the shape are filled in their declared order. A slot takes
//! the best ranked nodes that can serve its role and that no earlier slot in
//! conflict with it holds, until it has as many as it requires or no such
//! node is left; in the second case it is marked under quorum.

use crate::committee::{assignment_views, AssignmentView, Committee, CommitteeView, RoleAssignment};
use crate::ident::{Identifier, Seed};
use crate::node::Node;
use crate::ranking::{
    ids_distinct, lemma_ranking_distinct, lemma_ranking_of_same_live_nodes,
    lemma_ranking_sorted_permutation, live_nodes, rank_nodes, ranking,
};
use crate::task::{RoleSlot, Task};
use vstd::prelude::*;

verus! {

/// An earlier group that is in conflict with `slot` holds the node `id`.
pub open spec fn consumed(groups: Seq<AssignmentView>, slot: RoleSlot, id: Identifier) -> bool {
    exists|i: int|
        0 <= i < groups.len() && (#[trigger] groups[i]).slot.conflicts_with(slot)
            && groups[i].nodes.contains(id)
}

/// The node can be taken for `slot`, given the groups filled so far.
pub open spec fn available(groups: Seq<AssignmentView>, slot: RoleSlot, node: Node) -> bool {
    node.serves(slot.role) && !consumed(groups, slot, node.id)
}

/// The ranked nodes that can be taken for `slot`, in ranking order.
pub open spec fn candidates(ranked: Seq<Node>, groups: Seq<AssignmentView>, slot: RoleSlot) -> Seq<
    Node,
> {
    ranked.filter(|n: Node| available(groups, slot, n))
}

/// The identifiers of a sequence of nodes.
pub open spec fn node_ids(nodes: Seq<Node>) -> Seq<Identifier> {
    Seq::new(nodes.len(), |i: int| nodes[i].id)
}

/// The group of `slot`: its first `required` candidates, or all of them and
/// the under-quorum mark when there are fewer.
pub open spec fn fill(ranked: Seq<Node>, groups: Seq<AssignmentView>, slot: RoleSlot)
    -> AssignmentView {
    let found = candidates(ranked, groups, slot);
    if found.len() < slot.required {
        AssignmentView { slot, nodes: node_ids(found), under_quorum: true }
    } else {
        AssignmentView {
            slot,
            nodes: node_ids(found.take(slot.required as int)),
            under_quorum: false,
        }
    }
}

/// The groups of the first `n` slots of `shape`.
pub open spec fn assign(ranked: Seq<Node>, shape: Seq<RoleSlot>, n: nat) -> Seq<AssignmentView>
    decreases n,
{
    if n == 0 {
        Seq::empty()
    } else {
        let earlier = assign(ranked, shape, (n - 1) as nat);
        earlier.push(fill(ranked, earlier, shape[n - 1]))
    }
}

/// The committee of a task at `epoch`, chosen under `seed` from `nodes`.
pub open spec fn select(
    task: Identifier,
    shape: Seq<RoleSlot>,
    epoch: u64,
    seed: Seed,
    nodes: Seq<Node>,
) -> CommitteeView {
    CommitteeView { task, epoch, groups: assign(ranking(seed, nodes), shape, shape.len()) }
}

/// Decides whether an earlier group in conflict with `slot` holds `id`.
fn is_consumed(groups: &Vec<RoleAssignment>, slot: &RoleSlot, id: &Identifier) -> (r: bool)
    ensures
        r == consumed(assignment_views(groups@), *slot, *id),
{
    let ghost views = assignment_views(groups@);
    let mut i: usize = 0;
    while i < groups.len()
        invariant
            i <= groups@.len(),
            views == assignment_views(groups@),
            forall|a: int|
                0 <= a < i ==> !((#[trigger] views[a]).slot.conflicts_with(*slot)
                    && views[a].nodes.contains(*id)),
        decreases groups@.len() - i,
    {
        let group = &groups[i];
        assert(views[i as int] == group@);
        if group.slot.exclusive || slot.exclusive {
            let mut k: usize = 0;
            while k < group.nodes.len()
                invariant
                    k <= group.nodes@.len(),
                    i < groups@.len(),
                    views == assignment_views(groups@),
                    views[i as int] == group@,
                    group.slot.conflicts_with(*slot),
                    forall|b: int| 0 <= b < k ==> group.nodes@[b] != *id,
                decreases group.nodes@.len() - k,
            {
                if group.nodes[k] == *id {
                    assert(views[i as int].nodes.contains(*id));
                    return true;
                }
                k += 1;
            }
        }
        i += 1;
    }
    false
}

/// Fills one slot from the ranking, given the groups filled before it.
fn fill_slot(ranked: &Vec<Node>, groups: &Vec<RoleAssignment>, slot: RoleSlot) -> (group:
    RoleAssignment)
    ensures
        group@ == fill(ranked@, assignment_views(groups@), slot),
{
    let ghost views = assignment_views(groups@);
    let ghost pred = |n: Node| available(views, slot, n);
    let mut picked: Vec<Identifier> = Vec::new();
    let mut i: usize = 0;
    while i < ranked.len() && picked.len() < slot.required
        invariant
            i <= ranked@.len(),
            views == assignment_views(groups@),
            pred == (|n: Node| available(views, slot, n)),
            picked@ == node_ids(ranked@.take(i as int).filter(pred)),
            picked@.len() <= slot.required,
        decreases ranked@.len() - i,
    {
        let node: Node = ranked[i];
        let take = node.can_serve(slot.role) && !is_consumed(groups, &slot, &node.id);
        proof {
            let before = ranked@.take(i as int);
            assert(ranked@.take(i + 1) =~= before.push(node));
            Seq::lemma_filter_push(before, node, pred);
            assert(take == pred(node));
            if take {
                assert(node_ids(before.filter(pred).push(node)) =~= node_ids(
                    before.filter(pred),
                ).push(node.id));
            }
        }
        if take {
            picked.push(node.id);
        }
        i += 1;
    }
    let under_quorum = picked.len() < slot.required;
    proof {
        let head = ranked@.take(i as int);
        let tail = ranked@.skip(i as int);
        let found = candidates(ranked@, views, slot);
        assert(ranked@ =~= head + tail);
        Seq::filter_distributes_over_add(head, tail, pred);
        assert(found == head.filter(pred) + tail.filter(pred));
        if i == ranked@.len() {
            assert(tail =~= Seq::<Node>::empty());
            assert(found =~= head.filter(pred));
            if found.len() >= slot.required {
                assert(found.take(slot.required as int) =~= found);
            }
        } else {
            assert(found.take(slot.required as int) =~= head.filter(pred));
        }
    }
    RoleAssignment { slot, nodes: picked, under_quorum }
}

/// Chooses the committee of `task` at `epoch` under `seed` from a snapshot
/// of the node pool. Only live nodes are considered. An empty shape gives a
/// committee without groups, and a snapshot without live nodes gives one
/// whose groups are all empty.
pub fn select_committee(task: &Task, epoch: u64, seed: &Seed, nodes: &Vec<Node>) -> (committee:
    Committee)
    ensures
        committee@ == select(task.id, task.shape@, epoch, *seed, nodes@),
{
    let ranked = rank_nodes(seed, nodes);
    let mut groups: Vec<RoleAssignment> = Vec::new();
    let mut j: usize = 0;
    assert(assignment_views(groups@) =~= assign(ranked@, task.shape@, 0));
    while j < task.shape.len()
        invariant
            j <= task.shape@.len(),
            assignment_views(groups@) == assign(ranked@, task.shape@, j as nat),
        decreases task.shape@.len() - j,
    {
        let group = fill_slot(&ranked, &groups, task.shape[j]);
        let ghost before = groups@;
        groups.push(group);
        assert(assignment_views(groups@) =~= assignment_views(before).push(group@));
        j += 1;
    }
    Committee { task: task.id, epoch, groups }
}

/// The groups of the first `n` slots: one per slot, each the group that
/// `fill` gives after the groups before it.
pub proof fn lemma_assign_groups(ranked: Seq<Node>, shape: Seq<RoleSlot>, n: nat)
    requires
        n <= shape.len(),
    ensures
        assign(ranked, shape, n).len() == n,
        forall|j: int|
            0 <= j < n ==> #[trigger] assign(ranked, shape, n)[j] == fill(
                ranked,
                assign(ranked, shape, j as nat),
                shape[j],
            ),
        forall|j: int| 0 <= j < n ==> (#[trigger] assign(ranked, shape, n)[j]).slot == shape[j],
    decreases n,
{
    if n > 0 {
        lemma_assign_groups(ranked, shape, (n - 1) as nat);
    }
}

/// A group never holds more nodes than its slot requires, and it is marked
/// under quorum exactly when it holds fewer.
pub proof fn lemma_fill_quorum(ranked: Seq<Node>, groups: Seq<AssignmentView>, slot: RoleSlot)
    ensures
        fill(ranked, groups, slot).slot == slot,
        fill(ranked, groups, slot).nodes.len() <= slot.required,
        fill(ranked, groups, slot).under_quorum <==> fill(ranked, groups, slot).nodes.len()
            < slot.required,
{
}

/// Every node of a group is a ranked node that can serve the role and that
/// no earlier group in conflict with the slot holds.
pub proof fn lemma_fill_members(
    ranked: Seq<Node>,
    groups: Seq<AssignmentView>,
    slot: RoleSlot,
    k: int,
)
    requires
        0 <= k < fill(ranked, groups, slot).nodes.len(),
    ensures
        exists|m: int|
            0 <= m < ranked.len() && (#[trigger] ranked[m]).id == fill(
                ranked,
                groups,
                slot,
            ).nodes[k] && available(groups, slot, ranked[m]),
{
    let pred = |n: Node| available(groups, slot, n);
    let found = candidates(ranked, groups, slot);
    assert(found[k].id == fill(ranked, groups, slot).nodes[k]);
    ranked.lemma_filter_pred(pred, k);
    assert(found.contains(found[k]));
    ranked.lemma_filter_contains_rev(pred, found[k]);
    let m = choose|m: int| 0 <= m < ranked.len() && ranked[m] == found[k];
    assert(ranked[m].id == fill(ranked, groups, slot).nodes[k]);
}

/// Completeness or flag: the committee has one group per slot of the shape,
/// in the order of the shape, and every group either holds exactly as many
/// nodes as its slot requires or holds fewer and is marked under quorum.
pub proof fn lemma_complete_or_flagged(
    task: Identifier,
    shape: Seq<RoleSlot>,
    epoch: u64,
    seed: Seed,
    nodes: Seq<Node>,
)
    ensures
        select(task, shape, epoch, seed, nodes).groups.len() == shape.len(),
        forall|j: int|
            0 <= j < shape.len() ==> {
                let group = #[trigger] select(task, shape, epoch, seed, nodes).groups[j];
                &&& group.slot == shape[j]
                &&& group.nodes.len() <= shape[j].required
                &&& group.under_quorum <==> group.nodes.len() < shape[j].required
            },
{
    let ranked = ranking(seed, nodes);
    lemma_assign_groups(ranked, shape, shape.len());
    assert forall|j: int| 0 <= j < shape.len() implies {
        let group = #[trigger] select(task, shape, epoch, seed, nodes).groups[j];
        &&& group.slot == shape[j]
        &&& group.nodes.len() <= shape[j].required
        &&& group.under_quorum <==> group.nodes.len() < shape[j].required
    } by {
        lemma_fill_quorum(ranked, assign(ranked, shape, j as nat), shape[j]);
    }
}

/// Every member of a committee is a live node of the snapshot that declares
/// the role it was given.
pub proof fn lemma_members_eligible(
    task: Identifier,
    shape: Seq<RoleSlot>,
    epoch: u64,
    seed: Seed,
    nodes: Seq<Node>,
    j: int,
    k: int,
)
    requires
        0 <= j < shape.len(),
        0 <= k < select(task, shape, epoch, seed, nodes).groups[j].nodes.len(),
    ensures
        exists|m: int|
            0 <= m < nodes.len() && (#[trigger] nodes[m]).live && nodes[m].serves(shape[j].role)
                && nodes[m].id == select(task, shape, epoch, seed, nodes).groups[j].nodes[k],
{
    broadcast use vstd::seq_lib::to_multiset_contains;

    let ranked = ranking(seed, nodes);
    let earlier = assign(ranked, shape, j as nat);
    lemma_assign_groups(ranked, shape, shape.len());
    lemma_fill_members(ranked, earlier, shape[j], k);
    let r = choose|r: int|
        0 <= r < ranked.len() && (#[trigger] ranked[r]).id == fill(ranked, earlier, shape[j]).nodes[k]
            && available(earlier, shape[j], ranked[r]);
    let node = ranked[r];
    lemma_ranking_sorted_permutation(seed, nodes);
    assert(ranked.contains(node));
    assert(ranked.to_multiset().contains(node));
    assert(live_nodes(nodes).contains(node));
    let live = live_nodes(nodes);
    let q = choose|q: int| 0 <= q < live.len() && live[q] == node;
    nodes.lemma_filter_pred(|n: Node| n.live, q);
    nodes.lemma_filter_contains_rev(|n: Node| n.live, node);
    let m = choose|m: int| 0 <= m < nodes.len() && nodes[m] == node;
    assert(nodes[m].live && nodes[m].serves(shape[j].role));
}

/// Two groups whose slots are in conflict share no node.
pub proof fn lemma_conflicting_groups_disjoint(
    task: Identifier,
    shape: Seq<RoleSlot>,
    epoch: u64,
    seed: Seed,
    nodes: Seq<Node>,
    i: int,
    j: int,
    id: Identifier,
)
    requires
        0 <= i < j < shape.len(),
        shape[i].conflicts_with(shape[j]),
    ensures
        !(select(task, shape, epoch, seed, nodes).groups[i].nodes.contains(id) && select(
            task,
            shape,
            epoch,
            seed,
            nodes,
        ).groups[j].nodes.contains(id)),
{
    let ranked = ranking(seed, nodes);
    let groups = assign(ranked, shape, shape.len());
    let earlier = assign(ranked, shape, j as nat);
    lemma_assign_groups(ranked, shape, shape.len());
    lemma_assign_groups(ranked, shape, j as nat);
    assert(groups[i] == earlier[i]);
    if groups[i].nodes.contains(id) && groups[j].nodes.contains(id) {
        let k = choose|k: int| 0 <= k < groups[j].nodes.len() && groups[j].nodes[k] == id;
        lemma_fill_members(ranked, earlier, shape[j], k);
        assert(earlier[i].slot.conflicts_with(shape[j]));
        assert(consumed(earlier, shape[j], id));
    }
}

/// Determinism: the committee is a function of the task, the epoch, the seed
/// and the snapshot. Equal inputs give equal committees.
pub proof fn lemma_selection_deterministic(
    task_a: Identifier,
    shape_a: Seq<RoleSlot>,
    epoch_a: u64,
    seed_a: Seed,
    nodes_a: Seq<Node>,
    task_b: Identifier,
    shape_b: Seq<RoleSlot>,
    epoch_b: u64,
    seed_b: Seed,
    nodes_b: Seq<Node>,
)
    requires
        task_a == task_b,
        shape_a =~= shape_b,
        epoch_a == epoch_b,
        seed_a == seed_b,
        nodes_a =~= nodes_b,
    ensures
        select(task_a, shape_a, epoch_a, seed_a, nodes_a) == select(
            task_b,
            shape_b,
            epoch_b,
            seed_b,
            nodes_b,
        ),
{
}

/// The committee depends on the live nodes of the snapshot alone: two
/// snapshots that hold the same live nodes, none of them twice, give the
/// same committee, in whatever order they list the nodes and whatever dead
/// nodes they hold.
pub proof fn lemma_selection_of_same_live_nodes(
    task: Identifier,
    shape: Seq<RoleSlot>,
    epoch: u64,
    seed: Seed,
    nodes_a: Seq<Node>,
    nodes_b: Seq<Node>,
)
    requires
        ids_distinct(nodes_a),
        ids_distinct(nodes_b),
        live_nodes(nodes_a).to_multiset() == live_nodes(nodes_b).to_multiset(),
    ensures
        select(task, shape, epoch, seed, nodes_a) == select(task, shape, epoch, seed, nodes_b),
{
    lemma_ranking_of_same_live_nodes(seed, nodes_a, nodes_b);
}

/// A task with an empty shape gets a committee without groups.
pub proof fn lemma_empty_shape(task: Identifier, epoch: u64, seed: Seed, nodes: Seq<Node>)
    ensures
        select(task, Seq::empty(), epoch, seed, nodes).groups == Seq::<AssignmentView>::empty(),
        select(task, Seq::empty(), epoch, seed, nodes).is_empty(),
{
}

/// A snapshot without live nodes gives a committee that assigns nobody, and
/// every slot that requires a node is marked under quorum.
pub proof fn lemma_no_live_nodes(
    task: Identifier,
    shape: Seq<RoleSlot>,
    epoch: u64,
    seed: Seed,
    nodes: Seq<Node>,
)
    requires
        forall|m: int| 0 <= m < nodes.len() ==> !(#[trigger] nodes[m]).live,
    ensures
        select(task, shape, epoch, seed, nodes).is_empty(),
        forall|j: int|
            0 <= j < shape.len() ==> (#[trigger] select(
                task,
                shape,
                epoch,
                seed,
                nodes,
            ).groups[j]).under_quorum == (shape[j].required > 0),
{
    let ranked = ranking(seed, nodes);
    lemma_ranking_sorted_permutation(seed, nodes);
    if live_nodes(nodes).len() > 0 {
        let first = live_nodes(nodes)[0];
        assert(live_nodes(nodes).contains(first));
        nodes.lemma_filter_pred(|n: Node| n.live, 0);
        nodes.lemma_filter_contains_rev(|n: Node| n.live, first);
    }
    assert(ranked.len() == 0);
    lemma_assign_groups(ranked, shape, shape.len());
    let committee = select(task, shape, epoch, seed, nodes);
    assert forall|j: int| 0 <= j < shape.len() implies (#[trigger] committee.groups[j]).nodes.len()
        == 0 && committee.groups[j].under_quorum == (shape[j].required > 0) by {
        let earlier = assign(ranked, shape, j as nat);
        ranked.lemma_filter_len(|n: Node| available(earlier, shape[j], n));
    }
}

/// Filtering keeps apart what was apart: where no two nodes of a sequence
/// have the same identifier, no two nodes of a filtered part of it have.
pub proof fn lemma_filter_ids_distinct(s: Seq<Node>, pred: spec_fn(Node) -> bool)
    requires
        ids_distinct(s),
    ensures
        ids_distinct(s.filter(pred)),
    decreases s.len(),
{
    reveal(Seq::filter);
    if s.len() > 0 {
        let front = s.drop_last();
        let kept = front.filter(pred);
        lemma_filter_ids_distinct(front, pred);
        if pred(s.last()) {
            let all = s.filter(pred);
            assert(all == kept.push(s.last()));
            assert forall|i: int, j: int| 0 <= i < j < all.len() implies all[i].id != all[j].id by {
                if j == kept.len() {
                    assert(kept.contains(kept[i]));
                    front.lemma_filter_contains_rev(pred, kept[i]);
                    let m = choose|m: int| 0 <= m < front.len() && front[m] == kept[i];
                    assert(s[m].id != s[s.len() - 1].id);
                }
            }
        }
    }
}

/// Where the snapshot names no node twice, no group of the committee does.
pub proof fn lemma_group_members_distinct(
    task: Identifier,
    shape: Seq<RoleSlot>,
    epoch: u64,
    seed: Seed,
    nodes: Seq<Node>,
    j: int,
)
    requires
        ids_distinct(nodes),
        0 <= j < shape.len(),
    ensures
        select(task, shape, epoch, seed, nodes).groups[j].nodes.no_duplicates(),
{
    let ranked = ranking(seed, nodes);
    let earlier = assign(ranked, shape, j as nat);
    let slot = shape[j];
    lemma_assign_groups(ranked, shape, shape.len());
    lemma_ranking_distinct(seed, nodes);
    let found = candidates(ranked, earlier, slot);
    lemma_filter_ids_distinct(ranked, |n: Node| available(earlier, slot, n));
    let group = fill(ranked, earlier, slot);
    assert forall|a: int, b: int| 0 <= a < group.nodes.len() && 0 <= b < group.nodes.len() && a
        != b implies group.nodes[a] != group.nodes[b] by {
        assert(group.nodes[a] == found[a].id);
        assert(group.nodes[b] == found[b].id);
        if a < b {
            assert(found[a].id != found[b].id);
        } else {
            assert(found[b].id != found[a].id);
        }
    }
}

} // verus!
