//! The broadcast hub: it hands every committed committee to every
//! subscription, each through a queue of its own.

use crate::committee::{Committee, CommitteeView};
use crate::delivery::{emitted, in_epoch_order, lemma_delivery_in_epoch_order, Step};
use crate::subscription::{
    event_view, Event, EventView, OverflowPolicy, Scope, Subscription, SubscriptionView,
};
use vstd::prelude::*;

verus! {

/// The values of a sequence of subscriptions.
pub open spec fn subscription_views(subs: Seq<Subscription>) -> Seq<SubscriptionView> {
    Seq::new(subs.len(), |i: int| subs[i]@)
}

/// The subscriptions of a hub after the committee `c` was published: every
/// one of them was offered `c`, and what becomes of one depends on nothing
/// but itself and `c`.
pub open spec fn published(subs: Seq<SubscriptionView>, c: CommitteeView) -> Seq<SubscriptionView> {
    Seq::new(subs.len(), |i: int| subs[i].deliver(c))
}

/// The subscriptions after `c` was offered to the one at place `id` alone.
pub open spec fn offered_to(subs: Seq<SubscriptionView>, id: int, c: CommitteeView) -> Seq<
    SubscriptionView,
> {
    if 0 <= id < subs.len() {
        subs.update(id, subs[id].deliver(c))
    } else {
        subs
    }
}

/// The subscriptions after the reader of the one at place `id` took an event.
pub open spec fn polled(subs: Seq<SubscriptionView>, id: int) -> Seq<SubscriptionView> {
    if 0 <= id < subs.len() {
        subs.update(id, subs[id].advance())
    } else {
        subs
    }
}

/// The subscriptions after the one at place `id` was cancelled.
pub open spec fn cancelled_at(subs: Seq<SubscriptionView>, id: int) -> Seq<SubscriptionView> {
    if 0 <= id < subs.len() {
        subs.update(id, subs[id].cancelled())
    } else {
        subs
    }
}

/// Every subscription is well formed.
pub open spec fn all_inv(subs: Seq<SubscriptionView>) -> bool {
    forall|i: int| 0 <= i < subs.len() ==> (#[trigger] subs[i]).inv()
}

/// The fan-out point for committee updates. A subscription is named by the
/// place it got when it was made; the place of a cancelled subscription is
/// not given out again.
pub struct BroadcastHub {
    subs: Vec<Subscription>,
}

impl View for BroadcastHub {
    type V = Seq<SubscriptionView>;

    closed spec fn view(&self) -> Seq<SubscriptionView> {
        subscription_views(self.subs@)
    }
}

impl BroadcastHub {
    /// A hub without subscriptions.
    pub fn new() -> (hub: BroadcastHub)
        ensures
            hub@ == Seq::<SubscriptionView>::empty(),
    {
        let hub = BroadcastHub { subs: Vec::new() };
        assert(hub@ =~= Seq::<SubscriptionView>::empty());
        hub
    }

    /// Number of subscriptions ever made.
    pub fn len(&self) -> (n: usize)
        ensures
            n == self@.len(),
    {
        self.subs.len()
    }

    /// The subscription at place `id`, if there is one.
    pub fn subscription(&self, id: usize) -> (r: Option<&Subscription>)
        ensures
            match r {
                Some(sub) => id < self@.len() && sub@ == self@[id as int],
                None => id >= self@.len(),
            },
    {
        if id < self.subs.len() {
            Some(&self.subs[id])
        } else {
            None
        }
    }

    /// Makes a new subscription with an empty queue and returns its place.
    pub fn subscribe(&mut self, scope: Scope, capacity: usize, policy: OverflowPolicy) -> (id:
        usize)
        ensures
            id == old(self)@.len(),
            final(self)@ == old(self)@.push(
                SubscriptionView::fresh(scope, capacity as nat, policy),
            ),
    {
        let id: usize = self.subs.len();
        let sub = Subscription::new(scope, capacity, policy);
        let ghost before = self.subs@;
        self.subs.push(sub);
        assert(self@ =~= subscription_views(before).push(sub@));
        id
    }

    /// Offers `committee` to every subscription. No subscription waits for
    /// another, and none for its reader.
    pub fn publish(&mut self, committee: &Committee)
        ensures
            final(self)@ == published(old(self)@, committee@),
    {
        let ghost before = self@;
        let mut i: usize = 0;
        while i < self.subs.len()
            invariant
                i <= self.subs@.len(),
                self@.len() == before.len(),
                forall|k: int| 0 <= k < i ==> self@[k] == before[k].deliver(committee@),
                forall|k: int| i <= k < before.len() ==> self@[k] == before[k],
            decreases self.subs@.len() - i,
        {
            let ghost mid = self@;
            self.subs[i].offer(committee);
            assert(self@ =~= mid.update(i as int, mid[i as int].deliver(committee@)));
            i += 1;
        }
        assert(self@ =~= published(before, committee@));
    }

    /// Offers `committee` to the subscription at place `id` alone. An
    /// unknown place changes nothing.
    pub fn offer_to(&mut self, id: usize, committee: &Committee)
        ensures
            final(self)@ == offered_to(old(self)@, id as int, committee@),
    {
        let ghost before = self@;
        if id < self.subs.len() {
            self.subs[id].offer(committee);
            assert(self@ =~= before.update(id as int, before[id as int].deliver(committee@)));
        }
    }

    /// Takes the next event of the subscription at place `id` for its
    /// reader. An unknown place has no events.
    pub fn poll(&mut self, id: usize) -> (event: Option<Event>)
        ensures
            final(self)@ == polled(old(self)@, id as int),
            event_view(event) == if id < old(self)@.len() {
                old(self)@[id as int].next_event()
            } else {
                None
            },
    {
        let ghost before = self@;
        if id < self.subs.len() {
            let event = self.subs[id].poll();
            assert(self@ =~= before.update(id as int, before[id as int].advance()));
            event
        } else {
            None
        }
    }

    /// Cancels the subscription at place `id`. An unknown place changes
    /// nothing.
    pub fn cancel(&mut self, id: usize)
        ensures
            final(self)@ == cancelled_at(old(self)@, id as int),
    {
        let ghost before = self@;
        if id < self.subs.len() {
            self.subs[id].cancel();
            assert(self@ =~= before.update(id as int, before[id as int].cancelled()));
        }
    }
}

/// One step in the life of a hub.
pub enum HubStep {
    /// A committee is published to all subscriptions.
    Publish(CommitteeView),
    /// The reader of the subscription at the given place takes an event.
    Poll(int),
}

/// The subscriptions after one step.
pub open spec fn hub_step(subs: Seq<SubscriptionView>, step: HubStep) -> Seq<SubscriptionView> {
    match step {
        HubStep::Publish(c) => published(subs, c),
        HubStep::Poll(k) => polled(subs, k),
    }
}

/// The events that the reader of the subscription at place `id` gets, in
/// order, while the steps of `steps` happen one after the other.
pub open spec fn hub_emitted(subs: Seq<SubscriptionView>, steps: Seq<HubStep>, id: int) -> Seq<
    EventView,
>
    decreases steps.len(),
{
    if steps.len() == 0 {
        Seq::empty()
    } else {
        let rest = hub_emitted(hub_step(subs, steps[0]), steps.skip(1), id);
        match steps[0] {
            HubStep::Publish(c) => rest,
            HubStep::Poll(k) => if k == id {
                match subs[id].next_event() {
                    Some(e) => seq![e] + rest,
                    None => rest,
                }
            } else {
                rest
            },
        }
    }
}

/// The steps of a hub as the subscription at place `id` meets them: every
/// publication, and the polls of its own reader. The polls of other readers
/// are left out.
pub open spec fn own_steps(steps: Seq<HubStep>, id: int) -> Seq<Step>
    decreases steps.len(),
{
    if steps.len() == 0 {
        Seq::empty()
    } else {
        let rest = own_steps(steps.skip(1), id);
        match steps[0] {
            HubStep::Publish(c) => seq![Step::Deliver(c)] + rest,
            HubStep::Poll(k) => if k == id {
                seq![Step::Poll] + rest
            } else {
                rest
            },
        }
    }
}

/// Publishing keeps every subscription well formed.
pub proof fn lemma_published_inv(subs: Seq<SubscriptionView>, c: CommitteeView)
    requires
        all_inv(subs),
    ensures
        all_inv(published(subs, c)),
{
    assert forall|i: int| 0 <= i < subs.len() implies (#[trigger] published(subs, c)[i]).inv() by {
        crate::delivery::lemma_deliver_inv(subs[i], c);
    }
}

/// Isolation of one publication: what becomes of a subscription when a
/// committee is published depends on that subscription and the committee
/// alone. Two hubs that agree on one subscription agree on it afterwards,
/// whatever their other subscriptions hold.
pub proof fn lemma_publish_isolated(
    a: Seq<SubscriptionView>,
    b: Seq<SubscriptionView>,
    i: int,
    j: int,
    c: CommitteeView,
)
    requires
        0 <= i < a.len(),
        0 <= j < b.len(),
        a[i] == b[j],
    ensures
        published(a, c)[i] == a[i].deliver(c),
        published(a, c)[i] == published(b, c)[j],
{
}

/// Isolation: the events that a reader gets are those that its subscription
/// would give if it were alone with the same publications and the same
/// polls of its own. Whether and when other readers poll, or never do,
/// changes nothing for it.
pub proof fn lemma_readers_isolated(subs: Seq<SubscriptionView>, steps: Seq<HubStep>, id: int)
    requires
        0 <= id < subs.len(),
    ensures
        hub_emitted(subs, steps, id) == emitted(subs[id], own_steps(steps, id)),
    decreases steps.len(),
{
    if steps.len() > 0 {
        let next = hub_step(subs, steps[0]);
        let rest_own = own_steps(steps.skip(1), id);
        lemma_readers_isolated(next, steps.skip(1), id);
        match steps[0] {
            HubStep::Publish(c) => {
                let own = seq![Step::Deliver(c)] + rest_own;
                assert(own.skip(1) =~= rest_own);
                assert(own[0] == Step::Deliver(c));
                assert(next[id] == subs[id].deliver(c));
            },
            HubStep::Poll(k) => {
                if k == id {
                    let own = seq![Step::Poll] + rest_own;
                    assert(own.skip(1) =~= rest_own);
                    assert(own[0] == Step::Poll);
                    assert(next[id] == subs[id].advance());
                } else {
                    assert(next[id] == subs[id]);
                }
            },
        }
    }
}

/// In-order delivery through the hub: whatever is published and whichever
/// readers poll, the updates that one reader gets for one task come in
/// strictly increasing epoch order.
pub proof fn lemma_hub_delivery_in_epoch_order(
    subs: Seq<SubscriptionView>,
    steps: Seq<HubStep>,
    id: int,
)
    requires
        0 <= id < subs.len(),
        subs[id].inv(),
    ensures
        forall|i: int, j: int|
            0 <= i < j < hub_emitted(subs, steps, id).len() ==> in_epoch_order(
                hub_emitted(subs, steps, id)[i],
                hub_emitted(subs, steps, id)[j],
            ),
{
    lemma_readers_isolated(subs, steps, id);
    lemma_delivery_in_epoch_order(subs[id], own_steps(steps, id));
}

} // verus!
