//! What holds of the events that a subscription hands to its reader.

use crate::committee::CommitteeView;
use crate::subscription::{
    EventView, OverflowPolicy, Scope, SubscriptionState, SubscriptionView,
};
use vstd::prelude::*;

verus! {

/// A new subscription is well formed.
pub proof fn lemma_fresh_inv(scope: Scope, capacity: nat, policy: OverflowPolicy)
    ensures
        SubscriptionView::fresh(scope, capacity, policy).inv(),
{
}

/// Offering a committee keeps a subscription well formed; in particular the
/// queue never grows beyond its capacity.
pub proof fn lemma_deliver_inv(s: SubscriptionView, c: CommitteeView)
    requires
        s.inv(),
    ensures
        s.deliver(c).inv(),
        s.deliver(c).queue.len() <= s.capacity,
        s.deliver(c).capacity == s.capacity,
{
    let t = s.deliver(c);
    if s.wants(c) {
        if s.queue.len() < s.capacity {
            assert(t.inv());
        } else if s.policy == OverflowPolicy::DropOldest {
            let q = s.queue.push(c);
            assert forall|i: int| 0 <= i < t.queue.len() implies t.queue[i] == q[i + 1] by {}
            assert(t.inv());
        }
    }
}

/// Reading an event keeps a subscription well formed.
pub proof fn lemma_advance_inv(s: SubscriptionView)
    requires
        s.inv(),
    ensures
        s.advance().inv(),
{
    let t = s.advance();
    if s.state != SubscriptionState::Cancelled && !s.gap && s.queue.len() > 0 {
        assert forall|i: int| 0 <= i < t.queue.len() implies t.queue[i] == s.queue[i + 1] by {}
    }
}

/// Cancelling keeps a subscription well formed and empties its queue.
pub proof fn lemma_cancelled_inv(s: SubscriptionView)
    requires
        s.inv(),
    ensures
        s.cancelled().inv(),
        s.cancelled().next_event() is None,
{
}

/// A cancelled subscription stays as it is: it takes nothing that is
/// offered and hands nothing out.
pub proof fn lemma_cancelled_is_silent(s: SubscriptionView, steps: Seq<Step>)
    ensures
        emitted(s.cancelled(), steps) == Seq::<EventView>::empty(),
    decreases steps.len(),
{
    let c = s.cancelled();
    if steps.len() > 0 {
        assert(c.cancelled() == c);
        match steps[0] {
            Step::Deliver(u) => {
                assert(c.deliver(u) == c);
            },
            Step::Poll => {
                assert(c.advance() == c);
            },
        }
        lemma_cancelled_is_silent(c, steps.skip(1));
    }
}

/// No silent loss: when an offer makes a buffered update or the offered one
/// disappear from the queue of a subscription that stays open, the gap
/// marker is set, and the reader gets it before any further update.
pub proof fn lemma_drop_is_flagged(s: SubscriptionView, c: CommitteeView)
    requires
        s.inv(),
        s.wants(c),
        s.deliver(c).state == SubscriptionState::Active,
        s.deliver(c).queue != s.queue.push(c),
    ensures
        s.deliver(c).gap,
        s.deliver(c).next_event() == Some(EventView::Gap),
{
}

/// One step in the life of a subscription.
pub enum Step {
    /// A committee is offered.
    Deliver(CommitteeView),
    /// The reader takes the next event.
    Poll,
}

/// The events that the reader of `s` gets, in order, while the steps of
/// `steps` happen one after the other.
pub open spec fn emitted(s: SubscriptionView, steps: Seq<Step>) -> Seq<EventView>
    decreases steps.len(),
{
    if steps.len() == 0 {
        Seq::empty()
    } else {
        match steps[0] {
            Step::Deliver(c) => emitted(s.deliver(c), steps.skip(1)),
            Step::Poll => match s.next_event() {
                Some(e) => seq![e] + emitted(s.advance(), steps.skip(1)),
                None => emitted(s.advance(), steps.skip(1)),
            },
        }
    }
}

/// The update `u` is buffered in `s`, or is later than everything that `s`
/// took for its task.
pub open spec fn ahead_of(s: SubscriptionView, u: CommitteeView) -> bool {
    s.queue.contains(u) || !s.cursor.contains_key(u.task) || s.cursor[u.task] < u.epoch
}

/// Two events, the first earlier than the second, are in epoch order when
/// both are updates of one task.
pub open spec fn in_epoch_order(first: EventView, second: EventView) -> bool {
    match (first, second) {
        (EventView::Update(a), EventView::Update(b)) => a.task == b.task ==> a.epoch < b.epoch,
        _ => true,
    }
}

/// An event is no update, or an update that is ahead of `s`.
pub open spec fn event_ahead_of(s: SubscriptionView, e: EventView) -> bool {
    match e {
        EventView::Update(u) => ahead_of(s, u),
        _ => true,
    }
}

proof fn lemma_ahead_after_deliver(s: SubscriptionView, c: CommitteeView, u: CommitteeView)
    requires
        s.inv(),
        ahead_of(s.deliver(c), u),
    ensures
        ahead_of(s, u),
{
    let t = s.deliver(c);
    if s.wants(c) && t.queue.contains(u) {
        let k = choose|k: int| 0 <= k < t.queue.len() && t.queue[k] == u;
        if s.queue.len() < s.capacity {
            if k < s.queue.len() {
                assert(s.queue[k] == u);
            }
        } else if s.policy == OverflowPolicy::DropOldest {
            assert(t.queue[k] == s.queue.push(c)[k + 1]);
            if k + 1 < s.queue.len() {
                assert(s.queue[k + 1] == u);
            }
        }
    }
}

proof fn lemma_ahead_after_advance(s: SubscriptionView, u: CommitteeView)
    requires
        s.inv(),
        ahead_of(s.advance(), u),
    ensures
        ahead_of(s, u),
        s.next_event() matches Some(EventView::Update(head)) ==> (head.task == u.task
            ==> head.epoch < u.epoch),
{
    let t = s.advance();
    if s.state != SubscriptionState::Cancelled && !s.gap && s.queue.len() > 0 {
        if t.queue.contains(u) {
            let k = choose|k: int| 0 <= k < t.queue.len() && t.queue[k] == u;
            assert(s.queue[k + 1] == u);
        }
    }
}

/// Delivery order: whatever is offered to a subscription and whenever its
/// reader polls, the updates that the reader gets for one task come in
/// strictly increasing epoch order.
pub proof fn lemma_delivery_in_epoch_order(s: SubscriptionView, steps: Seq<Step>)
    requires
        s.inv(),
    ensures
        forall|i: int, j: int|
            0 <= i < j < emitted(s, steps).len() ==> in_epoch_order(
                emitted(s, steps)[i],
                emitted(s, steps)[j],
            ),
        forall|i: int|
            0 <= i < emitted(s, steps).len() ==> event_ahead_of(s, #[trigger] emitted(s, steps)[i]),
    decreases steps.len(),
{
    let all = emitted(s, steps);
    if steps.len() > 0 {
        let rest_steps = steps.skip(1);
        match steps[0] {
            Step::Deliver(c) => {
                let t = s.deliver(c);
                lemma_deliver_inv(s, c);
                lemma_delivery_in_epoch_order(t, rest_steps);
                let rest = emitted(t, rest_steps);
                assert(all == rest);
                assert forall|i: int| 0 <= i < all.len() implies event_ahead_of(
                    s,
                    #[trigger] all[i],
                ) by {
                    assert(event_ahead_of(t, rest[i]));
                    match all[i] {
                        EventView::Update(u) => {
                            lemma_ahead_after_deliver(s, c, u);
                        },
                        _ => {},
                    }
                }
            },
            Step::Poll => {
                let t = s.advance();
                let rest = emitted(t, rest_steps);
                lemma_advance_inv(s);
                lemma_delivery_in_epoch_order(t, rest_steps);
                assert forall|k: int| 0 <= k < rest.len() implies event_ahead_of(
                    s,
                    #[trigger] rest[k],
                ) && (s.next_event() matches Some(e) ==> in_epoch_order(e, rest[k])) by {
                    assert(event_ahead_of(t, rest[k]));
                    match rest[k] {
                        EventView::Update(u) => {
                            lemma_ahead_after_advance(s, u);
                        },
                        _ => {},
                    }
                }
                match s.next_event() {
                    Some(e) => {
                        assert(all == seq![e] + rest);
                        assert(all[0] == e);
                        assert forall|i: int| 0 < i < all.len() implies all[i] == rest[i - 1] by {}
                        assert forall|i: int, j: int| 0 <= i < j < all.len() implies in_epoch_order(
                            all[i],
                            all[j],
                        ) by {
                            assert(all[j] == rest[j - 1]);
                            if i > 0 {
                                assert(all[i] == rest[i - 1]);
                            }
                        }
                        assert forall|i: int| 0 <= i < all.len() implies event_ahead_of(
                            s,
                            #[trigger] all[i],
                        ) by {
                            if i > 0 {
                                assert(all[i] == rest[i - 1]);
                            } else {
                                match e {
                                    EventView::Update(u) => {
                                        assert(s.queue[0] == u);
                                    },
                                    _ => {},
                                }
                            }
                        }
                    },
                    None => {
                        assert(all == rest);
                    },
                }
            },
        }
    }
}

} // verus!
