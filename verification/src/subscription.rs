//! Subscriptions: one observer's bounded queue of committee updates.
//!
//! A subscription takes an update when it is active, the task is in its
//! scope, and the epoch is later than the last one it took for the task. A
//! full queue either drops its oldest update and records a gap, or closes the
//! subscription as fallen behind, as its policy says.

use crate::committee::{committee_views, Committee, CommitteeView};
use crate::cursor::EpochCursor;
use crate::ident::Identifier;
use std::collections::VecDeque;
use vstd::prelude::*;

verus! {

/// The tasks that a subscription listens to.
#[derive(Clone, Copy, Debug, PartialEq, Eq, Structural)]
pub enum Scope {
    /// Every task.
    All,
    /// One task.
    Task(Identifier),
}

impl Scope {
    /// The scope holds `task`.
    pub open spec fn covers(self, task: Identifier) -> bool {
        match self {
            Scope::All => true,
            Scope::Task(t) => t == task,
        }
    }

    /// Decides whether the scope holds `task`.
    pub fn includes(&self, task: &Identifier) -> (r: bool)
        ensures
            r == self.covers(*task),
    {
        match self {
            Scope::All => true,
            Scope::Task(t) => *t == *task,
        }
    }
}

/// What happens when an update arrives at a full queue.
#[derive(Clone, Copy, Debug, PartialEq, Eq, Structural)]
pub enum OverflowPolicy {
    /// The oldest buffered update is dropped and a gap is recorded.
    DropOldest,
    /// The subscription is closed as fallen behind.
    Disconnect,
}

/// The life cycle of a subscription.
#[derive(Clone, Copy, Debug, PartialEq, Eq, Structural)]
pub enum SubscriptionState {
    /// Updates are taken.
    Active,
    /// The queue overflowed under [`OverflowPolicy::Disconnect`]; what is
    /// buffered can still be read, nothing more is taken.
    FellBehind,
    /// The owner cancelled; the queue is released.
    Cancelled,
}

/// What a subscription hands to its reader.
#[derive(Debug, PartialEq, Eq)]
pub enum Event {
    /// A committee that was committed.
    Update(Committee),
    /// Updates were dropped between the last event and the next one.
    Gap,
    /// The subscription fell behind and was closed.
    FellBehind,
}

/// Mathematical value of an [`Event`].
pub enum EventView {
    Update(CommitteeView),
    Gap,
    FellBehind,
}

impl View for Event {
    type V = EventView;

    open spec fn view(&self) -> EventView {
        match self {
            Event::Update(c) => EventView::Update(c@),
            Event::Gap => EventView::Gap,
            Event::FellBehind => EventView::FellBehind,
        }
    }
}

/// The value of an event that may be absent.
pub open spec fn event_view(event: Option<Event>) -> Option<EventView> {
    match event {
        Some(e) => Some(e@),
        None => None,
    }
}

/// Mathematical value of a [`Subscription`].
pub struct SubscriptionView {
    pub scope: Scope,
    pub policy: OverflowPolicy,
    /// Most updates that the queue holds; at least one.
    pub capacity: nat,
    pub state: SubscriptionState,
    /// The buffered updates, oldest first.
    pub queue: Seq<CommitteeView>,
    /// For every task the last epoch that was taken into the queue.
    pub cursor: Map<Identifier, u64>,
    /// Updates were dropped in front of the oldest buffered one.
    pub gap: bool,
}

impl SubscriptionView {
    /// A new, active subscription with an empty queue. A capacity of zero is
    /// raised to one.
    pub open spec fn fresh(scope: Scope, capacity: nat, policy: OverflowPolicy) -> SubscriptionView {
        SubscriptionView {
            scope,
            policy,
            capacity: if capacity == 0 {
                1
            } else {
                capacity
            },
            state: SubscriptionState::Active,
            queue: Seq::empty(),
            cursor: Map::empty(),
            gap: false,
        }
    }

    /// The subscription takes the committee `c`.
    pub open spec fn wants(self, c: CommitteeView) -> bool {
        &&& self.state == SubscriptionState::Active
        &&& self.scope.covers(c.task)
        &&& self.cursor.contains_key(c.task) ==> self.cursor[c.task] < c.epoch
    }

    /// The subscription after `c` was offered to it.
    pub open spec fn deliver(self, c: CommitteeView) -> SubscriptionView {
        if !self.wants(c) {
            self
        } else if self.queue.len() < self.capacity {
            SubscriptionView {
                queue: self.queue.push(c),
                cursor: self.cursor.insert(c.task, c.epoch),
                ..self
            }
        } else {
            match self.policy {
                OverflowPolicy::DropOldest => SubscriptionView {
                    queue: self.queue.push(c).skip(1),
                    cursor: self.cursor.insert(c.task, c.epoch),
                    gap: true,
                    ..self
                },
                OverflowPolicy::Disconnect => SubscriptionView {
                    state: SubscriptionState::FellBehind,
                    ..self
                },
            }
        }
    }

    /// What the reader gets next: the gap marker if updates were dropped,
    /// else the oldest buffered update, else the closing signal of a
    /// subscription that fell behind, else nothing.
    pub open spec fn next_event(self) -> Option<EventView> {
        if self.state == SubscriptionState::Cancelled {
            None
        } else if self.gap {
            Some(EventView::Gap)
        } else if self.queue.len() > 0 {
            Some(EventView::Update(self.queue[0]))
        } else if self.state == SubscriptionState::FellBehind {
            Some(EventView::FellBehind)
        } else {
            None
        }
    }

    /// The subscription after the reader took `next_event`.
    pub open spec fn advance(self) -> SubscriptionView {
        if self.state == SubscriptionState::Cancelled {
            self
        } else if self.gap {
            SubscriptionView { gap: false, ..self }
        } else if self.queue.len() > 0 {
            SubscriptionView { queue: self.queue.skip(1), ..self }
        } else {
            self
        }
    }

    /// The subscription after its owner cancelled it.
    pub open spec fn cancelled(self) -> SubscriptionView {
        SubscriptionView {
            state: SubscriptionState::Cancelled,
            queue: Seq::empty(),
            cursor: Map::empty(),
            gap: false,
            ..self
        }
    }

    /// What holds of every subscription: the queue is within its capacity,
    /// holds only tasks of the scope, and is in epoch order for every task,
    /// with no epoch beyond the cursor.
    pub open spec fn inv(self) -> bool {
        &&& self.capacity >= 1
        &&& self.queue.len() <= self.capacity
        &&& forall|i: int|
            0 <= i < self.queue.len() ==> self.scope.covers((#[trigger] self.queue[i]).task)
        &&& forall|i: int|
            0 <= i < self.queue.len() ==> self.cursor.contains_key((#[trigger] self.queue[i]).task)
                && self.queue[i].epoch <= self.cursor[self.queue[i].task]
        &&& forall|i: int, j: int|
            0 <= i < j < self.queue.len() && self.queue[i].task == self.queue[j].task
                ==> self.queue[i].epoch < self.queue[j].epoch
        &&& self.state == SubscriptionState::Cancelled ==> self.queue.len() == 0 && !self.gap
        &&& self.policy == OverflowPolicy::Disconnect ==> !self.gap
    }
}

/// One observer's registration for committee updates.
pub struct Subscription {
    scope: Scope,
    policy: OverflowPolicy,
    capacity: usize,
    state: SubscriptionState,
    queue: VecDeque<Committee>,
    cursor: EpochCursor,
    gap: bool,
}

impl View for Subscription {
    type V = SubscriptionView;

    closed spec fn view(&self) -> SubscriptionView {
        SubscriptionView {
            scope: self.scope,
            policy: self.policy,
            capacity: self.capacity as nat,
            state: self.state,
            queue: committee_views(self.queue@),
            cursor: self.cursor@,
            gap: self.gap,
        }
    }
}

impl Subscription {
    /// A new, active subscription with an empty queue. A capacity of zero is
    /// raised to one.
    pub fn new(scope: Scope, capacity: usize, policy: OverflowPolicy) -> (sub: Subscription)
        ensures
            sub@ == SubscriptionView::fresh(scope, capacity as nat, policy),
    {
        let sub = Subscription {
            scope,
            policy,
            capacity: if capacity == 0 {
                1
            } else {
                capacity
            },
            state: SubscriptionState::Active,
            queue: VecDeque::new(),
            cursor: EpochCursor::new(),
            gap: false,
        };
        assert(sub@.queue =~= Seq::<CommitteeView>::empty());
        sub
    }

    /// Offers a committed committee to the subscription. The call never
    /// waits for the reader: a full queue is handled by the policy.
    pub fn offer(&mut self, committee: &Committee)
        ensures
            final(self)@ == old(self)@.deliver(committee@),
    {
        match self.state {
            SubscriptionState::Active => {},
            _ => {
                return ;
            },
        }
        if !self.scope.includes(&committee.task) {
            return ;
        }
        match self.cursor.get(&committee.task) {
            Some(taken) => {
                if taken >= committee.epoch {
                    return ;
                }
            },
            None => {},
        }
        let ghost before = self.queue@;
        if self.queue.len() < self.capacity {
            self.queue.push_back(committee.clone());
            self.cursor.set(committee.task, committee.epoch);
            assert(committee_views(self.queue@) =~= committee_views(before).push(committee@));
        } else {
            match self.policy {
                OverflowPolicy::DropOldest => {
                    self.queue.push_back(committee.clone());
                    let _ = self.queue.pop_front();
                    self.cursor.set(committee.task, committee.epoch);
                    self.gap = true;
                    assert(committee_views(self.queue@) =~= committee_views(before).push(
                        committee@,
                    ).skip(1));
                },
                OverflowPolicy::Disconnect => {
                    self.state = SubscriptionState::FellBehind;
                },
            }
        }
    }

    /// Takes the next event for the reader, if there is one.
    pub fn poll(&mut self) -> (event: Option<Event>)
        ensures
            event_view(event) == old(self)@.next_event(),
            final(self)@ == old(self)@.advance(),
    {
        match self.state {
            SubscriptionState::Cancelled => {
                return None;
            },
            _ => {},
        }
        if self.gap {
            self.gap = false;
            return Some(Event::Gap);
        }
        let ghost before = self.queue@;
        match self.queue.pop_front() {
            Some(committee) => {
                assert(committee_views(self.queue@) =~= committee_views(before).skip(1));
                Some(Event::Update(committee))
            },
            None => {
                match self.state {
                    SubscriptionState::FellBehind => Some(Event::FellBehind),
                    _ => None,
                }
            },
        }
    }

    /// Cancels the subscription: nothing more is taken or handed out, and
    /// the queue is released.
    pub fn cancel(&mut self)
        ensures
            final(self)@ == old(self)@.cancelled(),
    {
        self.state = SubscriptionState::Cancelled;
        self.queue = VecDeque::new();
        self.cursor.clear();
        self.gap = false;
        assert(committee_views(self.queue@) =~= Seq::<CommitteeView>::empty());
    }

    /// Number of buffered updates.
    pub fn buffered(&self) -> (n: usize)
        ensures
            n == self@.queue.len(),
    {
        self.queue.len()
    }

    /// Most updates that the queue holds.
    pub fn capacity(&self) -> (n: usize)
        ensures
            n == self@.capacity,
    {
        self.capacity
    }

    /// Whether updates were dropped in front of the oldest buffered one.
    pub fn has_gap(&self) -> (r: bool)
        ensures
            r == self@.gap,
    {
        self.gap
    }

    /// The life-cycle state.
    pub fn state(&self) -> (s: SubscriptionState)
        ensures
            s == self@.state,
    {
        self.state
    }
}

} // verus!
