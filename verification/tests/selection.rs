use committee_scheduler::committee::Committee;
use committee_scheduler::ident::{Identifier, Seed};
use committee_scheduler::node::{Node, Role};
use committee_scheduler::ranking::{hash_identifier, is_ranked_before, node_rank_key, rank_nodes};
use committee_scheduler::selection::select_committee;
use committee_scheduler::task::{RoleSlot, Task};

const WORKER: Role = Role(0);
const BACKUP: Role = Role(1);

fn id(n: u64) -> Identifier {
    Identifier { w0: 0, w1: 0, w2: 0, w3: n }
}

fn seed() -> Seed {
    Identifier { w0: 1, w1: 2, w2: 3, w3: 4 }
}

fn worker(n: u64) -> Node {
    Node::new(id(n), 1).with_capability(WORKER)
}

fn both(n: u64) -> Node {
    Node::new(id(n), 1).with_capability(WORKER).with_capability(BACKUP)
}

fn ids(ns: &[u64]) -> Vec<Identifier> {
    ns.iter().map(|n| id(*n)).collect()
}

fn ranked_ids(nodes: &[Node]) -> Vec<u64> {
    nodes.iter().map(|n| n.id.w3).collect()
}

#[test]
fn hash_has_known_values() {
    assert_eq!(hash_identifier(&Identifier::zero(), &Identifier::zero()), 0x7bd3_144f_29c0_cc9e);
    assert_eq!(hash_identifier(&seed(), &id(1)), 0x309b_f0eb_74fa_d7ee);
    assert_eq!(hash_identifier(&seed(), &id(2)), 0xfb34_c0c8_c48c_116b);
    assert_eq!(hash_identifier(&seed(), &id(7)), 0xf6ee_7d2f_fc94_098a);
}

#[test]
fn hash_depends_on_the_seed() {
    let other = Identifier { w0: 9, w1: 9, w2: 9, w3: 9 };
    assert_ne!(hash_identifier(&seed(), &id(1)), hash_identifier(&other, &id(1)));
}

#[test]
fn rank_key_is_hash_over_weight() {
    assert_eq!(node_rank_key(&seed(), &Node::new(id(7), 1)), 0xf6ee_7d2f_fc94_098a);
    assert_eq!(node_rank_key(&seed(), &Node::new(id(7), 0)), 0xf6ee_7d2f_fc94_098a);
    assert_eq!(node_rank_key(&seed(), &Node::new(id(7), 3)), 0x524f_7f0f_fedc_032e);
    assert_eq!(node_rank_key(&seed(), &Node::new(id(7), u64::MAX)), 0);
}

#[test]
fn ranking_orders_by_key() {
    let nodes: Vec<Node> = (1..=10).map(worker).collect();
    let ranked = rank_nodes(&seed(), &nodes);
    assert_eq!(ranked_ids(&ranked), vec![1, 9, 4, 6, 8, 3, 5, 10, 7, 2]);
}

#[test]
fn ranking_changes_with_the_seed() {
    let nodes: Vec<Node> = (1..=5).map(worker).collect();
    let other = Identifier { w0: 9, w1: 9, w2: 9, w3: 9 };
    assert_eq!(ranked_ids(&rank_nodes(&seed(), &nodes)), vec![1, 4, 3, 5, 2]);
    assert_eq!(ranked_ids(&rank_nodes(&other, &nodes)), vec![4, 3, 2, 1, 5]);
}

#[test]
fn ranking_does_not_depend_on_snapshot_order() {
    let forward: Vec<Node> = (1..=10).map(worker).collect();
    let backward: Vec<Node> = (1..=10).rev().map(worker).collect();
    assert_eq!(rank_nodes(&seed(), &forward), rank_nodes(&seed(), &backward));
}

#[test]
fn ranking_breaks_ties_by_identifier() {
    let heavy = |n: u64| Node::new(id(n), u64::MAX);
    let nodes = vec![heavy(5), heavy(2), heavy(9), heavy(1)];
    assert_eq!(ranked_ids(&rank_nodes(&seed(), &nodes)), vec![1, 2, 5, 9]);
    assert!(is_ranked_before(&seed(), &heavy(2), &heavy(5)));
    assert!(!is_ranked_before(&seed(), &heavy(5), &heavy(2)));
    assert!(!is_ranked_before(&seed(), &heavy(5), &heavy(5)));
}

#[test]
fn ranking_leaves_dead_nodes_out() {
    let nodes = vec![worker(1), worker(2).with_liveness(false), worker(3), worker(4).with_liveness(false)];
    assert_eq!(ranked_ids(&rank_nodes(&seed(), &nodes)), vec![1, 3]);
}

#[test]
fn stake_moves_a_node_forward() {
    let plain = vec![worker(1), worker(2)];
    assert_eq!(ranked_ids(&rank_nodes(&seed(), &plain)), vec![1, 2]);
    let staked = vec![worker(1), Node::new(id(2), 8).with_capability(WORKER)];
    assert_eq!(ranked_ids(&rank_nodes(&seed(), &staked)), vec![2, 1]);
}

#[test]
fn three_workers_are_chosen_from_five_nodes() {
    let task = Task::new(id(100)).with_slot(RoleSlot::new(WORKER, 3));
    let nodes: Vec<Node> = (1..=5).map(worker).collect();
    let first = select_committee(&task, 1, &seed(), &nodes);
    assert_eq!(first.task, id(100));
    assert_eq!(first.epoch, 1);
    assert_eq!(first.groups.len(), 1);
    assert_eq!(first.groups[0].slot, RoleSlot::new(WORKER, 3));
    assert_eq!(first.groups[0].nodes, ids(&[1, 4, 3]));
    assert!(!first.groups[0].under_quorum);
    assert!(first.is_complete());
    assert!(!first.is_under_quorum(WORKER));
    let second = select_committee(&task, 1, &seed(), &nodes);
    assert_eq!(first, second);
}

#[test]
fn two_eligible_nodes_are_under_quorum() {
    let task = Task::new(id(100)).with_slot(RoleSlot::new(WORKER, 3));
    let nodes = vec![
        worker(2),
        worker(3).with_liveness(false),
        Node::new(id(4), 1).with_capability(BACKUP),
        worker(1),
    ];
    let c = select_committee(&task, 1, &seed(), &nodes);
    assert_eq!(c.groups.len(), 1);
    assert_eq!(c.groups[0].nodes, ids(&[1, 2]));
    assert!(c.groups[0].under_quorum);
    assert!(c.is_under_quorum(WORKER));
    assert!(!c.is_under_quorum(BACKUP));
    assert!(!c.is_complete());
    assert!(!c.is_empty());
}

#[test]
fn selection_is_deterministic() {
    let task = Task::new(id(7))
        .with_slot(RoleSlot::new(WORKER, 4))
        .with_slot(RoleSlot::new(BACKUP, 3));
    let nodes: Vec<Node> = (1..=10).map(both).collect();
    let a = select_committee(&task, 9, &seed(), &nodes);
    let b = select_committee(&task.clone(), 9, &seed(), &nodes.clone());
    assert_eq!(a, b);
}

#[test]
fn every_slot_is_complete_or_flagged() {
    let task = Task::new(id(7))
        .with_slot(RoleSlot::new(WORKER, 4))
        .with_slot(RoleSlot::new(BACKUP, 4))
        .with_slot(RoleSlot::new(Role(2), 1));
    let nodes: Vec<Node> = (1..=6).map(both).collect();
    let c = select_committee(&task, 1, &seed(), &nodes);
    assert_eq!(c.groups.len(), 3);
    for (group, slot) in c.groups.iter().zip(task.shape.iter()) {
        assert_eq!(group.slot, *slot);
        assert!(group.nodes.len() <= slot.required);
        assert_eq!(group.under_quorum, group.nodes.len() < slot.required);
    }
    assert_eq!(c.groups[0].nodes, ids(&[1, 4, 6, 3]));
    assert_eq!(c.groups[1].nodes, ids(&[5, 2]));
    assert!(c.groups[1].under_quorum);
    assert!(c.groups[2].nodes.is_empty());
    assert!(c.groups[2].under_quorum);
    assert!(c.is_under_quorum(BACKUP));
    assert!(c.is_under_quorum(Role(2)));
    assert!(!c.is_under_quorum(WORKER));
}

#[test]
fn exclusive_slots_share_no_node() {
    let task = Task::new(id(7))
        .with_slot(RoleSlot::new(WORKER, 2))
        .with_slot(RoleSlot::new(BACKUP, 2));
    let nodes: Vec<Node> = (1..=5).map(both).collect();
    let c = select_committee(&task, 1, &seed(), &nodes);
    assert_eq!(c.groups[0].nodes, ids(&[1, 4]));
    assert_eq!(c.groups[1].nodes, ids(&[3, 5]));
    assert!(c.is_complete());
}

#[test]
fn shared_slots_may_share_nodes() {
    let task = Task::new(id(7))
        .with_slot(RoleSlot::shared(WORKER, 2))
        .with_slot(RoleSlot::shared(BACKUP, 2));
    let nodes: Vec<Node> = (1..=5).map(both).collect();
    let c = select_committee(&task, 1, &seed(), &nodes);
    assert_eq!(c.groups[0].nodes, ids(&[1, 4]));
    assert_eq!(c.groups[1].nodes, ids(&[1, 4]));
}

#[test]
fn one_exclusive_slot_excludes_a_shared_one() {
    let task = Task::new(id(7))
        .with_slot(RoleSlot::shared(WORKER, 2))
        .with_slot(RoleSlot::new(BACKUP, 2))
        .with_slot(RoleSlot::shared(Role(2), 1));
    let nodes: Vec<Node> =
        (1..=5).map(|n| both(n).with_capability(Role(2))).collect();
    let c = select_committee(&task, 1, &seed(), &nodes);
    assert_eq!(c.groups[0].nodes, ids(&[1, 4]));
    assert_eq!(c.groups[1].nodes, ids(&[3, 5]));
    assert_eq!(c.groups[2].nodes, ids(&[1]));
}

#[test]
fn selection_needs_the_capability() {
    let task = Task::new(id(7)).with_slot(RoleSlot::new(BACKUP, 2));
    let nodes = vec![worker(1), both(2), worker(3), both(4), worker(5)];
    let c = select_committee(&task, 1, &seed(), &nodes);
    assert_eq!(c.groups[0].nodes, ids(&[4, 2]));
    assert!(c.is_complete());
}

#[test]
fn empty_shape_gives_empty_committee() {
    let task = Task::new(id(7));
    let nodes: Vec<Node> = (1..=5).map(worker).collect();
    let c = select_committee(&task, 3, &seed(), &nodes);
    assert_eq!(c, Committee::empty(id(7), 3));
    assert!(c.is_empty());
    assert!(c.is_complete());
}

#[test]
fn empty_snapshot_flags_every_role() {
    let task = Task::new(id(7))
        .with_slot(RoleSlot::new(WORKER, 3))
        .with_slot(RoleSlot::new(BACKUP, 0));
    let c = select_committee(&task, 1, &seed(), &Vec::new());
    assert_eq!(c.groups.len(), 2);
    assert!(c.is_empty());
    assert!(c.groups[0].under_quorum);
    assert!(!c.groups[1].under_quorum);
    assert!(c.is_under_quorum(WORKER));
    assert!(!c.is_under_quorum(BACKUP));
}

#[test]
fn snapshot_of_dead_nodes_gives_nobody() {
    let task = Task::new(id(7)).with_slot(RoleSlot::new(WORKER, 1));
    let nodes: Vec<Node> = (1..=3).map(|n| worker(n).with_liveness(false)).collect();
    let c = select_committee(&task, 1, &seed(), &nodes);
    assert!(c.is_empty());
    assert!(c.is_under_quorum(WORKER));
}

#[test]
fn task_builder_keeps_the_order_of_slots() {
    let task = Task::new(id(7))
        .with_slot(RoleSlot::new(WORKER, 3))
        .with_slot(RoleSlot::shared(BACKUP, 1));
    assert_eq!(task.id, id(7));
    assert_eq!(
        task.shape,
        vec![
            RoleSlot { role: WORKER, required: 3, exclusive: true },
            RoleSlot { role: BACKUP, required: 1, exclusive: false },
        ]
    );
    assert!(Task::new(id(7)).shape.is_empty());
}

#[test]
fn committee_clone_is_equal() {
    let task = Task::new(id(7))
        .with_slot(RoleSlot::new(WORKER, 2))
        .with_slot(RoleSlot::new(BACKUP, 9));
    let nodes: Vec<Node> = (1..=5).map(both).collect();
    let c = select_committee(&task, 4, &seed(), &nodes);
    assert_eq!(c.clone(), c);
    assert_eq!(c.groups[1].clone(), c.groups[1]);
}
