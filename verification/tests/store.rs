use committee_scheduler::committee::{Committee, RoleAssignment};
use committee_scheduler::cursor::EpochCursor;
use committee_scheduler::ident::Identifier;
use committee_scheduler::node::Role;
use committee_scheduler::store::CommitteeStore;
use committee_scheduler::task::RoleSlot;

fn id(n: u64) -> Identifier {
    Identifier { w0: 0, w1: 0, w2: 0, w3: n }
}

fn committee(task: u64, epoch: u64, members: &[u64]) -> Committee {
    Committee {
        task: id(task),
        epoch,
        groups: vec![RoleAssignment {
            slot: RoleSlot::new(Role(0), members.len()),
            nodes: members.iter().map(|n| id(*n)).collect(),
            under_quorum: false,
        }],
    }
}

#[test]
fn store_starts_empty() {
    let store = CommitteeStore::new();
    assert_eq!(store.len(), 0);
    assert_eq!(store.get(&id(1)), None);
}

#[test]
fn store_returns_what_was_put() {
    let mut store = CommitteeStore::new();
    assert!(store.put(&id(1), committee(1, 1, &[10, 11])));
    assert_eq!(store.get(&id(1)), Some(&committee(1, 1, &[10, 11])));
    assert_eq!(store.get(&id(2)), None);
    assert_eq!(store.len(), 1);
}

#[test]
fn store_accepts_only_later_epochs() {
    let mut store = CommitteeStore::new();
    assert!(store.put(&id(1), committee(1, 1, &[10])));
    assert!(store.put(&id(1), committee(1, 3, &[11])));
    assert!(!store.put(&id(1), committee(1, 2, &[12])));
    assert!(!store.put(&id(1), committee(1, 3, &[13])));
    assert!(!store.put(&id(1), committee(1, 0, &[14])));
    assert_eq!(store.get(&id(1)), Some(&committee(1, 3, &[11])));
    assert!(store.put(&id(1), committee(1, 4, &[15])));
    assert_eq!(store.get(&id(1)), Some(&committee(1, 4, &[15])));
    assert_eq!(store.len(), 1);
}

#[test]
fn store_accepts_epoch_zero_as_first() {
    let mut store = CommitteeStore::new();
    assert!(store.put(&id(1), committee(1, 0, &[10])));
    assert!(!store.put(&id(1), committee(1, 0, &[11])));
    assert_eq!(store.get(&id(1)), Some(&committee(1, 0, &[10])));
}

#[test]
fn store_holds_the_largest_epoch_for_good() {
    let mut store = CommitteeStore::new();
    assert!(store.put(&id(1), committee(1, u64::MAX, &[10])));
    assert!(!store.put(&id(1), committee(1, u64::MAX, &[11])));
    assert_eq!(store.get(&id(1)), Some(&committee(1, u64::MAX, &[10])));
}

#[test]
fn store_rejects_committee_of_another_task() {
    let mut store = CommitteeStore::new();
    assert!(!store.put(&id(1), committee(2, 5, &[10])));
    assert_eq!(store.len(), 0);
    assert_eq!(store.get(&id(1)), None);
    assert_eq!(store.get(&id(2)), None);
}

#[test]
fn store_keeps_tasks_apart() {
    let mut store = CommitteeStore::new();
    assert!(store.put(&id(1), committee(1, 5, &[10])));
    assert!(store.put(&id(2), committee(2, 1, &[20])));
    assert!(store.put(&id(3), committee(3, 9, &[30])));
    assert!(store.put(&id(2), committee(2, 2, &[21])));
    assert!(!store.put(&id(3), committee(3, 9, &[31])));
    assert_eq!(store.len(), 3);
    assert_eq!(store.get(&id(1)), Some(&committee(1, 5, &[10])));
    assert_eq!(store.get(&id(2)), Some(&committee(2, 2, &[21])));
    assert_eq!(store.get(&id(3)), Some(&committee(3, 9, &[30])));
    assert_eq!(store.committee_at(0), &committee(1, 5, &[10]));
    assert_eq!(store.committee_at(1), &committee(2, 2, &[21]));
    assert_eq!(store.committee_at(2), &committee(3, 9, &[30]));
}

#[test]
fn cursor_records_the_last_epoch_per_task() {
    let mut cursor = EpochCursor::new();
    assert_eq!(cursor.get(&id(1)), None);
    cursor.set(id(1), 4);
    cursor.set(id(2), 7);
    assert_eq!(cursor.get(&id(1)), Some(4));
    assert_eq!(cursor.get(&id(2)), Some(7));
    cursor.set(id(1), 9);
    assert_eq!(cursor.get(&id(1)), Some(9));
    assert_eq!(cursor.get(&id(2)), Some(7));
    assert_eq!(cursor.get(&id(3)), None);
    cursor.clear();
    assert_eq!(cursor.get(&id(1)), None);
    assert_eq!(cursor.get(&id(2)), None);
}

#[test]
fn empty_committee_has_no_groups() {
    let c = Committee::empty(id(4), 2);
    assert_eq!(c.task, id(4));
    assert_eq!(c.epoch, 2);
    assert!(c.groups.is_empty());
    assert!(c.is_empty());
    assert!(c.is_complete());
    assert!(!c.is_under_quorum(Role(0)));
}
