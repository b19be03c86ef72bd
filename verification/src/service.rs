//! The service front of the scheduler: the two operations that a transport
//! adapter calls, on plain bytes and values.

use crate::committee::{committee_views, Committee, CommitteeView};
use crate::hub::{cancelled_at, polled};
use crate::ident::{decode, DecodeError, Identifier};
use crate::scheduler::{Scheduler, SchedulerView};
use crate::store::latest;
use crate::subscription::{event_view, Event, OverflowPolicy, Scope};
use vstd::prelude::*;

verus! {

/// Queue capacity of the subscriptions that [`SchedulerService::watch_committees`]
/// makes.
pub const WATCH_CAPACITY: usize = 64;

/// Why the service refuses a request.
#[derive(Clone, Copy, Debug, PartialEq, Eq, Structural)]
pub enum ServiceError {
    /// The request names a task by bytes that are no identifier.
    InvalidArgument(DecodeError),
}

/// The committees that answer a lookup: the current committee of the task,
/// or nothing when the task has none.
pub open spec fn committees_of(store: Seq<CommitteeView>, task: Identifier) -> Seq<CommitteeView> {
    match latest(store, task) {
        Some(c) => seq![c],
        None => Seq::empty(),
    }
}

/// The scheduler as a transport adapter sees it.
pub struct SchedulerService {
    inner: Scheduler,
}

impl View for SchedulerService {
    type V = SchedulerView;

    closed spec fn view(&self) -> SchedulerView {
        self.inner@
    }
}

impl SchedulerService {
    /// The service is well formed.
    pub open spec fn wf(&self) -> bool {
        self@.inv()
    }

    /// A service in front of `backend`.
    pub fn new(backend: Scheduler) -> (service: SchedulerService)
        ensures
            service@ == backend@,
    {
        SchedulerService { inner: backend }
    }

    /// Gives the scheduler back.
    pub fn into_inner(self) -> (backend: Scheduler)
        ensures
            backend@ == self@,
    {
        self.inner
    }

    /// The scheduler behind the service.
    pub fn backend(&self) -> (backend: &Scheduler)
        ensures
            backend@ == self@,
    {
        &self.inner
    }

    /// The scheduler behind the service, to drive it.
    pub fn backend_mut(&mut self) -> (backend: &mut Scheduler)
        ensures
            backend@ == old(self)@,
            final(self)@ == final(backend)@,
    {
        &mut self.inner
    }

    /// The committees of the task that `contract_id` names. Bytes that are
    /// no identifier are refused as an invalid argument. A well-formed
    /// identifier of a task without a committee gives an empty list.
    pub fn get_committees(&self, contract_id: &[u8]) -> (r: Result<Vec<Committee>, ServiceError>)
        ensures
            contract_id@.len() != 32 ==> r == Err::<Vec<Committee>, ServiceError>(
                ServiceError::InvalidArgument(DecodeError::BadLength(contract_id@.len() as usize)),
            ),
            contract_id@.len() == 32 ==> (r matches Ok(list) && committee_views(list@)
                == committees_of(self@.store, decode(contract_id@))),
    {
        let task = match Identifier::from_slice(contract_id) {
            Ok(task) => task,
            Err(e) => {
                return Err(ServiceError::InvalidArgument(e));
            },
        };
        let mut list: Vec<Committee> = Vec::new();
        match self.inner.lookup(&task) {
            Some(committee) => {
                list.push(committee.clone());
                assert(committee_views(list@) =~= seq![committee@]);
            },
            None => {
                assert(committee_views(list@) =~= Seq::<CommitteeView>::empty());
            },
        }
        Ok(list)
    }

    /// Starts a watch on the committees of all tasks and returns the place
    /// by which it is named. The watch starts with the current committee of
    /// every task that has one; when its queue is full, the oldest update is
    /// dropped and a gap recorded.
    pub fn watch_committees(&mut self) -> (id: usize)
        requires
            old(self).wf(),
        ensures
            final(self).wf(),
            id == old(self)@.subs.len(),
            final(self)@ == old(self)@.subscribed(
                Scope::All,
                WATCH_CAPACITY as nat,
                OverflowPolicy::DropOldest,
            ),
    {
        self.inner.subscribe(Scope::All, WATCH_CAPACITY, OverflowPolicy::DropOldest)
    }

    /// The next event of the watch at place `id`, if there is one.
    pub fn next_update(&mut self, id: usize) -> (event: Option<Event>)
        requires
            old(self).wf(),
        ensures
            final(self).wf(),
            final(self)@ == (SchedulerView {
                subs: polled(old(self)@.subs, id as int),
                ..old(self)@
            }),
            event_view(event) == if id < old(self)@.subs.len() {
                old(self)@.subs[id as int].next_event()
            } else {
                None
            },
    {
        self.inner.poll(id)
    }

    /// Ends the watch at place `id`.
    pub fn cancel_watch(&mut self, id: usize)
        requires
            old(self).wf(),
        ensures
            final(self).wf(),
            final(self)@ == (SchedulerView {
                subs: cancelled_at(old(self)@.subs, id as int),
                ..old(self)@
            }),
    {
        self.inner.cancel(id);
    }
}

} // verus!
