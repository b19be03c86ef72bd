use committee_scheduler::committee::Committee;
use committee_scheduler::ident::{DecodeError, Identifier, Seed};
use committee_scheduler::node::{Node, Role};
use committee_scheduler::scheduler::Scheduler;
use committee_scheduler::selection::select_committee;
use committee_scheduler::service::{SchedulerService, ServiceError, WATCH_CAPACITY};
use committee_scheduler::subscription::Event;
use committee_scheduler::task::{RoleSlot, Task};

const WORKER: Role = Role(0);

fn id(n: u64) -> Identifier {
    Identifier { w0: 0, w1: 0, w2: 0, w3: n }
}

fn seed() -> Seed {
    Identifier { w0: 1, w1: 2, w2: 3, w3: 4 }
}

fn workers(n: u64) -> Vec<Node> {
    (1..=n).map(|k| Node::new(id(k), 1).with_capability(WORKER)).collect()
}

fn task(n: u64) -> Task {
    Task::new(id(n)).with_slot(RoleSlot::new(WORKER, 3))
}

#[test]
fn service_stands_in_front_of_its_backend() {
    let mut backend = Scheduler::new(1);
    backend.recompute(&task(100), &seed(), &workers(5));
    let service = SchedulerService::new(backend);
    assert_eq!(service.backend().committee_count(), 1);
    assert_eq!(
        service.backend().lookup(&id(100)),
        Some(&select_committee(&task(100), 1, &seed(), &workers(5)))
    );
    let backend = service.into_inner();
    assert_eq!(backend.committee_count(), 1);
}

#[test]
fn get_committees_refuses_malformed_identifiers() {
    let service = SchedulerService::new(Scheduler::new(1));
    assert_eq!(
        service.get_committees(&[]),
        Err(ServiceError::InvalidArgument(DecodeError::BadLength(0)))
    );
    assert_eq!(
        service.get_committees(&[1u8; 31]),
        Err(ServiceError::InvalidArgument(DecodeError::BadLength(31)))
    );
    assert_eq!(
        service.get_committees(&[1u8; 64]),
        Err(ServiceError::InvalidArgument(DecodeError::BadLength(64)))
    );
}

#[test]
fn get_committees_of_unknown_task_is_empty() {
    let mut service = SchedulerService::new(Scheduler::new(1));
    service.backend_mut().recompute(&task(100), &seed(), &workers(5));
    assert_eq!(service.get_committees(&id(200).to_bytes()), Ok(Vec::new()));
    assert_eq!(service.get_committees(&[0u8; 32]), Ok(Vec::new()));
}

#[test]
fn get_committees_returns_the_current_committee() {
    let mut service = SchedulerService::new(Scheduler::new(1));
    service.backend_mut().recompute(&task(100), &seed(), &workers(5));
    service.backend_mut().recompute(&task(100), &seed(), &workers(4));
    service.backend_mut().recompute(&task(200), &seed(), &workers(2));
    assert_eq!(
        service.get_committees(&id(100).to_bytes()),
        Ok(vec![select_committee(&task(100), 2, &seed(), &workers(4))])
    );
    assert_eq!(
        service.get_committees(&id(200).to_bytes()),
        Ok(vec![select_committee(&task(200), 1, &seed(), &workers(2))])
    );
}

#[test]
fn watch_committees_streams_every_task() {
    let mut service = SchedulerService::new(Scheduler::new(1));
    service.backend_mut().commit(Committee::empty(id(100), 1));
    let watch = service.watch_committees();
    let other = service.watch_committees();
    assert_eq!((watch, other), (0, 1));
    service.backend_mut().commit(Committee::empty(id(200), 1));
    service.backend_mut().commit(Committee::empty(id(100), 2));
    assert_eq!(service.next_update(watch), Some(Event::Update(Committee::empty(id(100), 1))));
    assert_eq!(service.next_update(watch), Some(Event::Update(Committee::empty(id(200), 1))));
    assert_eq!(service.next_update(watch), Some(Event::Update(Committee::empty(id(100), 2))));
    assert_eq!(service.next_update(watch), None);
    service.cancel_watch(watch);
    service.backend_mut().commit(Committee::empty(id(100), 3));
    assert_eq!(service.next_update(watch), None);
    assert_eq!(service.next_update(other), Some(Event::Update(Committee::empty(id(100), 1))));
}

#[test]
fn watch_queue_holds_its_capacity() {
    let mut service = SchedulerService::new(Scheduler::new(1));
    let watch = service.watch_committees();
    let total = WATCH_CAPACITY as u64 + 3;
    for epoch in 1..=total {
        service.backend_mut().commit(Committee::empty(id(100), epoch));
    }
    assert_eq!(service.next_update(watch), Some(Event::Gap));
    for epoch in 4..=total {
        assert_eq!(
            service.next_update(watch),
            Some(Event::Update(Committee::empty(id(100), epoch)))
        );
    }
    assert_eq!(service.next_update(watch), None);
}
