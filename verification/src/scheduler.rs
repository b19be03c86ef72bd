//! The scheduler: the committee store, the broadcast hub and the epoch
//! driver behind the two operations that callers use, lookup and subscribe.

use crate::committee::{Committee, CommitteeView};
use crate::delivery::{lemma_advance_inv, lemma_cancelled_inv, lemma_deliver_inv, lemma_fresh_inv};
use crate::driver::{Decision, EpochDriver, Trigger};
use crate::hub::{all_inv, cancelled_at, lemma_published_inv, polled, published, BroadcastHub};
use crate::ident::{Identifier, Seed};
use crate::node::Node;
use crate::selection::{select, select_committee};
use crate::store::{
    accepts, after_put, index_of, latest, lemma_index_from, lemma_put_keeps_distinct,
    lemma_put_latest, tasks_distinct, CommitteeStore,
};
use crate::subscription::{
    event_view, Event, EventView, OverflowPolicy, Scope, SubscriptionView,
};
use crate::task::{task_views, Task, TaskView};
use vstd::prelude::*;

verus! {

/// A subscription after every committee of `committees` was offered to it,
/// in order.
pub open spec fn caught_up(sub: SubscriptionView, committees: Seq<CommitteeView>)
    -> SubscriptionView
    decreases committees.len(),
{
    if committees.len() == 0 {
        sub
    } else {
        caught_up(sub, committees.drop_last()).deliver(committees.last())
    }
}

/// Mathematical value of a [`Scheduler`].
pub struct SchedulerView {
    /// The committees held, one per task.
    pub store: Seq<CommitteeView>,
    /// The subscriptions, each at the place by which it is named.
    pub subs: Seq<SubscriptionView>,
    /// The state of the epoch driver.
    pub driver: EpochDriver,
}

impl SchedulerView {
    /// The store holds one committee per task and every subscription is well
    /// formed.
    pub open spec fn inv(self) -> bool {
        tasks_distinct(self.store) && all_inv(self.subs)
    }

    /// The epoch that the next committee of `task` gets: one for the first,
    /// else one more than the epoch held. There is none when the epoch held
    /// is the largest number.
    pub open spec fn next_epoch(self, task: Identifier) -> Option<u64> {
        match latest(self.store, task) {
            None => Some(1u64),
            Some(held) => if held.epoch < u64::MAX {
                Some((held.epoch + 1) as u64)
            } else {
                None
            },
        }
    }

    /// The scheduler after `c` was handed in for its task: when the store
    /// applies the write, `c` is published to every subscription; a stale
    /// write changes nothing.
    pub open spec fn committed(self, c: CommitteeView) -> SchedulerView {
        if accepts(self.store, c.task, c) {
            SchedulerView {
                store: after_put(self.store, c.task, c),
                subs: published(self.subs, c),
                ..self
            }
        } else {
            self
        }
    }

    /// The scheduler after the committee of a task was computed anew under
    /// `seed` from `nodes`: the new committee is handed in under the next
    /// epoch of the task. Without a next epoch nothing changes.
    pub open spec fn recomputed(self, task: TaskView, seed: Seed, nodes: Seq<Node>)
        -> SchedulerView {
        match self.next_epoch(task.id) {
            Some(e) => self.committed(select(task.id, task.shape, e, seed, nodes)),
            None => self,
        }
    }

    /// The scheduler after the committees of the tasks of `tasks` were
    /// computed anew, one after the other; with `only` set, those of the
    /// tasks with that identifier alone.
    pub open spec fn recomputed_each(
        self,
        tasks: Seq<TaskView>,
        only: Option<Identifier>,
        seed: Seed,
        nodes: Seq<Node>,
    ) -> SchedulerView
        decreases tasks.len(),
    {
        if tasks.len() == 0 {
            self
        } else {
            let earlier = self.recomputed_each(tasks.drop_last(), only, seed, nodes);
            if only is None || only == Some(tasks.last().id) {
                earlier.recomputed(tasks.last(), seed, nodes)
            } else {
                earlier
            }
        }
    }

    /// The scheduler after a decision of the epoch driver was carried out
    /// on the known tasks.
    pub open spec fn applied(
        self,
        decision: Decision,
        tasks: Seq<TaskView>,
        seed: Seed,
        nodes: Seq<Node>,
    ) -> SchedulerView {
        match decision {
            Decision::Idle => self,
            Decision::RecomputeAll => self.recomputed_each(tasks, None, seed, nodes),
            Decision::RecomputeTask(task) => self.recomputed_each(tasks, Some(task), seed, nodes),
        }
    }

    /// The scheduler after a new subscription was made: the subscription
    /// starts with the committees that the store holds for its scope.
    pub open spec fn subscribed(self, scope: Scope, capacity: nat, policy: OverflowPolicy)
        -> SchedulerView {
        SchedulerView {
            subs: self.subs.push(
                caught_up(SubscriptionView::fresh(scope, capacity, policy), self.store),
            ),
            ..self
        }
    }
}

/// The scheduling engine.
pub struct Scheduler {
    store: CommitteeStore,
    hub: BroadcastHub,
    driver: EpochDriver,
}

impl View for Scheduler {
    type V = SchedulerView;

    closed spec fn view(&self) -> SchedulerView {
        SchedulerView { store: self.store@, subs: self.hub@, driver: self.driver }
    }
}

impl Scheduler {
    /// The scheduler is well formed.
    pub open spec fn wf(&self) -> bool {
        self@.inv()
    }

    /// A scheduler without committees and subscriptions. `threshold` is the
    /// number of membership changes that call for new committees.
    pub fn new(threshold: u64) -> (scheduler: Scheduler)
        ensures
            scheduler.wf(),
            scheduler@ == (SchedulerView {
                store: Seq::empty(),
                subs: Seq::empty(),
                driver: EpochDriver { started: false, epoch: 0, threshold, drift: 0 },
            }),
    {
        Scheduler {
            store: CommitteeStore::new(),
            hub: BroadcastHub::new(),
            driver: EpochDriver::new(threshold),
        }
    }

    /// The current committee of `task`, or `None` when the task never got
    /// one. Nothing is changed.
    pub fn lookup(&self, task: &Identifier) -> (r: Option<&Committee>)
        ensures
            match r {
                Some(c) => latest(self@.store, *task) == Some(c@),
                None => latest(self@.store, *task) is None,
            },
    {
        self.store.get(task)
    }

    /// Number of tasks that have a committee.
    pub fn committee_count(&self) -> (n: usize)
        ensures
            n == self@.store.len(),
    {
        self.store.len()
    }

    /// Number of subscriptions ever made.
    pub fn subscription_count(&self) -> (n: usize)
        ensures
            n == self@.subs.len(),
    {
        self.hub.len()
    }

    /// Makes a subscription and returns the place by which it is named. The
    /// subscription starts with the current committee of every task in its
    /// scope that has one, so its reader learns the present state at once.
    pub fn subscribe(&mut self, scope: Scope, capacity: usize, policy: OverflowPolicy) -> (id:
        usize)
        requires
            old(self).wf(),
        ensures
            final(self).wf(),
            id == old(self)@.subs.len(),
            final(self)@ == old(self)@.subscribed(scope, capacity as nat, policy),
    {
        let ghost before = self@;
        let ghost fresh = SubscriptionView::fresh(scope, capacity as nat, policy);
        let id: usize = self.hub.subscribe(scope, capacity, policy);
        let mut i: usize = 0;
        assert(self.store@.take(0) =~= Seq::<CommitteeView>::empty());
        while i < self.store.len()
            invariant
                i <= self.store@.len(),
                id == before.subs.len(),
                self.store@ == before.store,
                self.driver == before.driver,
                self.hub@ == before.subs.push(caught_up(fresh, before.store.take(i as int))),
            decreases self.store@.len() - i,
        {
            self.hub.offer_to(id, self.store.committee_at(i));
            proof {
                let prefix = before.store.take(i + 1);
                assert(prefix.drop_last() =~= before.store.take(i as int));
                assert(prefix.last() == before.store[i as int]);
                assert(self.hub@ =~= before.subs.push(caught_up(fresh, prefix)));
            }
            i += 1;
        }
        proof {
            assert(before.store.take(i as int) =~= before.store);
            lemma_fresh_inv(scope, capacity as nat, policy);
            lemma_caught_up_inv(fresh, before.store);
        }
        id
    }

    /// Hands in a committee for its task. When the store applies the write,
    /// the committee is published to every subscription and `true` is
    /// returned. A committee whose epoch is not later than the one held is
    /// stale: nothing changes and `false` is returned.
    pub fn commit(&mut self, committee: Committee) -> (applied: bool)
        requires
            old(self).wf(),
        ensures
            final(self).wf(),
            applied == accepts(old(self)@.store, committee@.task, committee@),
            final(self)@ == old(self)@.committed(committee@),
    {
        let task: Identifier = committee.task;
        let ghost c = committee@;
        let ghost before = self@;
        let applied = self.store.put(&task, committee);
        if applied {
            proof {
                lemma_put_latest(before.store, task, c, task);
                lemma_published_inv(before.subs, c);
            }
            match self.store.get(&task) {
                Some(held) => {
                    self.hub.publish(held);
                },
                None => {},
            }
        }
        applied
    }

    /// Computes the committee of `task` anew under `seed` from a snapshot of
    /// the node pool, and hands it in under the next epoch of the task. The
    /// epoch is returned. When the epoch held is already the largest number
    /// there is no next epoch: nothing changes and `None` is returned.
    pub fn recompute(&mut self, task: &Task, seed: &Seed, nodes: &Vec<Node>) -> (epoch: Option<
        u64,
    >)
        requires
            old(self).wf(),
        ensures
            final(self).wf(),
            epoch == old(self)@.next_epoch(task.id),
            final(self)@ == old(self)@.recomputed(task@, *seed, nodes@),
            epoch matches Some(e) ==> latest(final(self)@.store, task.id) == Some(
                select(task.id, task.shape@, e, *seed, nodes@),
            ),
    {
        let next: Option<u64> = match self.store.get(&task.id) {
            None => Some(1),
            Some(held) => if held.epoch < u64::MAX {
                Some(held.epoch + 1)
            } else {
                None
            },
        };
        match next {
            Some(e) => {
                let committee = select_committee(task, e, seed, nodes);
                proof {
                    lemma_put_latest(self@.store, task.id, committee@, task.id);
                }
                let applied = self.commit(committee);
                assert(applied);
                Some(e)
            },
            None => None,
        }
    }

    /// Carries out a decision of the epoch driver on the known tasks, under
    /// the seed of the current epoch and a snapshot of the node pool: all
    /// committees are computed anew, or that of the one task that the
    /// decision names, or none.
    pub fn apply(&mut self, decision: Decision, tasks: &Vec<Task>, seed: &Seed, nodes: &Vec<Node>)
        requires
            old(self).wf(),
        ensures
            final(self).wf(),
            final(self)@ == old(self)@.applied(decision, task_views(tasks@), *seed, nodes@),
    {
        let only: Option<Identifier> = match decision {
            Decision::Idle => {
                return ;
            },
            Decision::RecomputeAll => None,
            Decision::RecomputeTask(task) => Some(task),
        };
        let ghost before = self@;
        let ghost views = task_views(tasks@);
        let mut i: usize = 0;
        assert(views.take(0) =~= Seq::<TaskView>::empty());
        while i < tasks.len()
            invariant
                i <= tasks@.len(),
                views == task_views(tasks@),
                self.wf(),
                self@ == before.recomputed_each(views.take(i as int), only, *seed, nodes@),
            decreases tasks@.len() - i,
        {
            let wanted = match only {
                None => true,
                Some(id) => tasks[i].id == id,
            };
            proof {
                let prefix = views.take(i + 1);
                assert(prefix.drop_last() =~= views.take(i as int));
                assert(prefix.last() == tasks@[i as int]@);
            }
            if wanted {
                let _ = self.recompute(&tasks[i], seed, nodes);
            }
            i += 1;
        }
        assert(views.take(i as int) =~= views);
    }

    /// Takes the next event of the subscription at place `id` for its
    /// reader. Only that subscription is touched.
    pub fn poll(&mut self, id: usize) -> (event: Option<Event>)
        requires
            old(self).wf(),
        ensures
            final(self).wf(),
            final(self)@ == (SchedulerView {
                subs: polled(old(self)@.subs, id as int),
                ..old(self)@
            }),
            event_view(event) == if id < old(self)@.subs.len() {
                old(self)@.subs[id as int].next_event()
            } else {
                None
            },
    {
        proof {
            if id < self@.subs.len() {
                lemma_advance_inv(self@.subs[id as int]);
            }
        }
        self.hub.poll(id)
    }

    /// Cancels the subscription at place `id`. Only that subscription is
    /// touched.
    pub fn cancel(&mut self, id: usize)
        requires
            old(self).wf(),
        ensures
            final(self).wf(),
            final(self)@ == (SchedulerView {
                subs: cancelled_at(old(self)@.subs, id as int),
                ..old(self)@
            }),
    {
        proof {
            if id < self@.subs.len() {
                lemma_cancelled_inv(self@.subs[id as int]);
            }
        }
        self.hub.cancel(id);
    }

    /// Shows a trigger to the epoch driver and returns its decision. A
    /// request for a task leads to a computation only when the task has no
    /// committee yet.
    pub fn observe(&mut self, trigger: Trigger) -> (decision: Decision)
        requires
            old(self).wf(),
        ensures
            final(self).wf(),
            final(self)@.store == old(self)@.store,
            final(self)@.subs == old(self)@.subs,
            (final(self)@.driver, decision) == old(self)@.driver.step(
                trigger,
                trigger matches Trigger::TaskRequested(task) && latest(old(self)@.store, task)
                    is Some,
            ),
    {
        let known = match trigger {
            Trigger::TaskRequested(task) => self.store.get(&task).is_some(),
            _ => false,
        };
        self.driver.observe(trigger, known)
    }
}

/// Catching up keeps a subscription well formed.
pub proof fn lemma_caught_up_inv(sub: SubscriptionView, committees: Seq<CommitteeView>)
    requires
        sub.inv(),
    ensures
        caught_up(sub, committees).inv(),
    decreases committees.len(),
{
    if committees.len() > 0 {
        lemma_caught_up_inv(sub, committees.drop_last());
        lemma_deliver_inv(caught_up(sub, committees.drop_last()), committees.last());
    }
}

/// A new subscription for one task, after the first `n` committees of the
/// store were offered to it, holds the committee of the task when that is
/// among them, and nothing otherwise.
proof fn lemma_catch_up_prefix(
    store: Seq<CommitteeView>,
    task: Identifier,
    capacity: nat,
    policy: OverflowPolicy,
    n: int,
)
    requires
        tasks_distinct(store),
        0 <= n <= store.len(),
    ensures
        caught_up(SubscriptionView::fresh(Scope::Task(task), capacity, policy), store.take(n))
            == if index_of(store, task) < n {
            SubscriptionView::fresh(Scope::Task(task), capacity, policy).deliver(
                store[index_of(store, task)],
            )
        } else {
            SubscriptionView::fresh(Scope::Task(task), capacity, policy)
        },
    decreases n,
{
    let at = index_of(store, task);
    lemma_index_from(store, task, 0);
    if n > 0 {
        lemma_catch_up_prefix(store, task, capacity, policy, n - 1);
        let prefix = store.take(n);
        assert(prefix.drop_last() =~= store.take(n - 1));
        assert(prefix.last() == store[n - 1]);
        if at < n - 1 {
            assert(store[at].task != store[n - 1].task);
        }
    } else {
        assert(store.take(0) =~= Seq::<CommitteeView>::empty());
    }
}

/// Catch-up: a new subscription for a task that has a committee holds that
/// committee, and its reader gets it as the first event, with no further
/// computation. A new subscription for a task without a committee is empty.
pub proof fn lemma_catch_up_first_event(
    scheduler: SchedulerView,
    task: Identifier,
    capacity: nat,
    policy: OverflowPolicy,
)
    requires
        scheduler.inv(),
    ensures
        ({
            let after = scheduler.subscribed(Scope::Task(task), capacity, policy);
            let sub = after.subs[scheduler.subs.len() as int];
            match latest(scheduler.store, task) {
                Some(c) => sub.queue == seq![c] && sub.next_event() == Some(EventView::Update(c)),
                None => sub.queue.len() == 0 && sub.next_event() is None,
            }
        }),
{
    let store = scheduler.store;
    lemma_catch_up_prefix(store, task, capacity, policy, store.len() as int);
    assert(store.take(store.len() as int) =~= store);
    lemma_index_from(store, task, 0);
    let fresh = SubscriptionView::fresh(Scope::Task(task), capacity, policy);
    if index_of(store, task) < store.len() {
        let c = store[index_of(store, task)];
        assert(fresh.deliver(c).queue =~= seq![c]);
    }
}

/// A committee that the store applies reaches the queue of every active
/// subscription that has room and whose scope holds the task, however full
/// the queues of the others are.
pub proof fn lemma_commit_reaches_subscriber(scheduler: SchedulerView, c: CommitteeView, id: int)
    requires
        scheduler.inv(),
        accepts(scheduler.store, c.task, c),
        0 <= id < scheduler.subs.len(),
    ensures
        scheduler.committed(c).subs[id] == scheduler.subs[id].deliver(c),
        latest(scheduler.committed(c).store, c.task) == Some(c),
        scheduler.committed(c).inv(),
{
    lemma_put_latest(scheduler.store, c.task, c, c.task);
    lemma_put_keeps_distinct(scheduler.store, c.task, c);
    lemma_published_inv(scheduler.subs, c);
}

} // verus!
