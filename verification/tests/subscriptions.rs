use committee_scheduler::committee::Committee;
use committee_scheduler::hub::BroadcastHub;
use committee_scheduler::ident::Identifier;
use committee_scheduler::subscription::{
    Event, OverflowPolicy, Scope, Subscription, SubscriptionState,
};

fn id(n: u64) -> Identifier {
    Identifier { w0: 0, w1: 0, w2: 0, w3: n }
}

fn update(task: u64, epoch: u64) -> Committee {
    Committee::empty(id(task), epoch)
}

fn drain(sub: &mut Subscription) -> Vec<Event> {
    let mut events = Vec::new();
    while let Some(e) = sub.poll() {
        if e == Event::FellBehind {
            events.push(e);
            break;
        }
        events.push(e);
    }
    events
}

#[test]
fn new_subscription_is_active_and_empty() {
    let mut sub = Subscription::new(Scope::All, 4, OverflowPolicy::DropOldest);
    assert_eq!(sub.state(), SubscriptionState::Active);
    assert_eq!(sub.capacity(), 4);
    assert_eq!(sub.buffered(), 0);
    assert!(!sub.has_gap());
    assert_eq!(sub.poll(), None);
}

#[test]
fn capacity_zero_is_raised_to_one() {
    let mut sub = Subscription::new(Scope::All, 0, OverflowPolicy::DropOldest);
    assert_eq!(sub.capacity(), 1);
    sub.offer(&update(1, 1));
    assert_eq!(sub.buffered(), 1);
    assert_eq!(sub.poll(), Some(Event::Update(update(1, 1))));
}

#[test]
fn updates_come_out_in_the_order_they_went_in() {
    let mut sub = Subscription::new(Scope::All, 8, OverflowPolicy::DropOldest);
    sub.offer(&update(1, 1));
    sub.offer(&update(2, 1));
    sub.offer(&update(1, 2));
    assert_eq!(sub.buffered(), 3);
    assert_eq!(
        drain(&mut sub),
        vec![
            Event::Update(update(1, 1)),
            Event::Update(update(2, 1)),
            Event::Update(update(1, 2)),
        ]
    );
    assert_eq!(sub.poll(), None);
}

#[test]
fn queue_of_two_keeps_the_last_two_of_five_updates() {
    let mut sub = Subscription::new(Scope::Task(id(1)), 2, OverflowPolicy::DropOldest);
    for epoch in 1..=5 {
        sub.offer(&update(1, epoch));
        assert!(sub.buffered() <= 2);
    }
    assert_eq!(sub.buffered(), 2);
    assert!(sub.has_gap());
    assert_eq!(sub.state(), SubscriptionState::Active);
    assert_eq!(sub.poll(), Some(Event::Gap));
    assert!(!sub.has_gap());
    assert_eq!(sub.poll(), Some(Event::Update(update(1, 4))));
    assert_eq!(sub.poll(), Some(Event::Update(update(1, 5))));
    assert_eq!(sub.poll(), None);
}

#[test]
fn gap_sits_between_what_was_read_and_what_is_left() {
    let mut sub = Subscription::new(Scope::All, 2, OverflowPolicy::DropOldest);
    sub.offer(&update(1, 1));
    sub.offer(&update(1, 2));
    assert_eq!(sub.poll(), Some(Event::Update(update(1, 1))));
    sub.offer(&update(1, 3));
    assert!(!sub.has_gap());
    sub.offer(&update(1, 4));
    assert!(sub.has_gap());
    assert_eq!(
        drain(&mut sub),
        vec![Event::Gap, Event::Update(update(1, 3)), Event::Update(update(1, 4))]
    );
}

#[test]
fn strict_policy_closes_a_subscription_that_falls_behind() {
    let mut sub = Subscription::new(Scope::All, 2, OverflowPolicy::Disconnect);
    sub.offer(&update(1, 1));
    sub.offer(&update(1, 2));
    assert_eq!(sub.state(), SubscriptionState::Active);
    sub.offer(&update(1, 3));
    assert_eq!(sub.state(), SubscriptionState::FellBehind);
    assert_eq!(sub.buffered(), 2);
    assert!(!sub.has_gap());
    sub.offer(&update(1, 4));
    assert_eq!(sub.buffered(), 2);
    assert_eq!(sub.poll(), Some(Event::Update(update(1, 1))));
    sub.offer(&update(1, 5));
    assert_eq!(sub.buffered(), 1);
    assert_eq!(sub.poll(), Some(Event::Update(update(1, 2))));
    assert_eq!(sub.poll(), Some(Event::FellBehind));
    assert_eq!(sub.poll(), Some(Event::FellBehind));
}

#[test]
fn subscription_takes_only_its_task() {
    let mut sub = Subscription::new(Scope::Task(id(2)), 4, OverflowPolicy::DropOldest);
    sub.offer(&update(1, 1));
    sub.offer(&update(2, 1));
    sub.offer(&update(3, 1));
    sub.offer(&update(2, 2));
    assert_eq!(
        drain(&mut sub),
        vec![Event::Update(update(2, 1)), Event::Update(update(2, 2))]
    );
}

#[test]
fn subscription_skips_epochs_that_are_not_later() {
    let mut sub = Subscription::new(Scope::All, 8, OverflowPolicy::DropOldest);
    sub.offer(&update(1, 5));
    sub.offer(&update(1, 5));
    sub.offer(&update(1, 3));
    sub.offer(&update(2, 3));
    sub.offer(&update(1, 6));
    assert_eq!(
        drain(&mut sub),
        vec![
            Event::Update(update(1, 5)),
            Event::Update(update(2, 3)),
            Event::Update(update(1, 6)),
        ]
    );
    sub.offer(&update(1, 6));
    sub.offer(&update(1, 2));
    assert_eq!(sub.poll(), None);
    sub.offer(&update(1, 7));
    assert_eq!(sub.poll(), Some(Event::Update(update(1, 7))));
}

#[test]
fn dropped_epochs_are_not_taken_again() {
    let mut sub = Subscription::new(Scope::All, 1, OverflowPolicy::DropOldest);
    sub.offer(&update(1, 1));
    sub.offer(&update(1, 2));
    sub.offer(&update(1, 1));
    assert_eq!(drain(&mut sub), vec![Event::Gap, Event::Update(update(1, 2))]);
}

#[test]
fn cancelled_subscription_is_silent() {
    let mut sub = Subscription::new(Scope::All, 2, OverflowPolicy::DropOldest);
    sub.offer(&update(1, 1));
    sub.offer(&update(1, 2));
    sub.offer(&update(1, 3));
    sub.cancel();
    assert_eq!(sub.state(), SubscriptionState::Cancelled);
    assert_eq!(sub.buffered(), 0);
    assert!(!sub.has_gap());
    assert_eq!(sub.poll(), None);
    sub.offer(&update(1, 4));
    assert_eq!(sub.buffered(), 0);
    assert_eq!(sub.poll(), None);
}

#[test]
fn scope_includes() {
    assert!(Scope::All.includes(&id(1)));
    assert!(Scope::Task(id(1)).includes(&id(1)));
    assert!(!Scope::Task(id(1)).includes(&id(2)));
}

#[test]
fn hub_gives_every_subscription_its_own_queue() {
    let mut hub = BroadcastHub::new();
    assert_eq!(hub.len(), 0);
    let a = hub.subscribe(Scope::All, 4, OverflowPolicy::DropOldest);
    let b = hub.subscribe(Scope::Task(id(2)), 4, OverflowPolicy::DropOldest);
    assert_eq!((a, b), (0, 1));
    assert_eq!(hub.len(), 2);
    hub.publish(&update(1, 1));
    hub.publish(&update(2, 1));
    assert_eq!(hub.subscription(a).unwrap().buffered(), 2);
    assert_eq!(hub.subscription(b).unwrap().buffered(), 1);
    assert_eq!(hub.poll(a), Some(Event::Update(update(1, 1))));
    assert_eq!(hub.poll(a), Some(Event::Update(update(2, 1))));
    assert_eq!(hub.poll(a), None);
    assert_eq!(hub.poll(b), Some(Event::Update(update(2, 1))));
    assert_eq!(hub.poll(b), None);
}

#[test]
fn stalled_subscription_does_not_hold_up_the_others() {
    let mut hub = BroadcastHub::new();
    let stalled = hub.subscribe(Scope::All, 1, OverflowPolicy::DropOldest);
    let strict = hub.subscribe(Scope::All, 1, OverflowPolicy::Disconnect);
    let reader = hub.subscribe(Scope::All, 1, OverflowPolicy::Disconnect);
    for epoch in 1..=20 {
        hub.publish(&update(1, epoch));
        assert_eq!(hub.poll(reader), Some(Event::Update(update(1, epoch))));
        assert_eq!(hub.poll(reader), None);
    }
    assert_eq!(hub.subscription(reader).unwrap().state(), SubscriptionState::Active);
    assert_eq!(hub.subscription(stalled).unwrap().buffered(), 1);
    assert!(hub.subscription(stalled).unwrap().has_gap());
    assert_eq!(hub.subscription(strict).unwrap().state(), SubscriptionState::FellBehind);
    assert_eq!(hub.poll(stalled), Some(Event::Gap));
    assert_eq!(hub.poll(stalled), Some(Event::Update(update(1, 20))));
    assert_eq!(hub.poll(strict), Some(Event::Update(update(1, 1))));
    assert_eq!(hub.poll(strict), Some(Event::FellBehind));
}

#[test]
fn hub_ignores_unknown_places() {
    let mut hub = BroadcastHub::new();
    let a = hub.subscribe(Scope::All, 4, OverflowPolicy::DropOldest);
    assert_eq!(hub.poll(7), None);
    hub.cancel(7);
    hub.offer_to(7, &update(1, 1));
    assert!(hub.subscription(7).is_none());
    assert_eq!(hub.len(), 1);
    assert_eq!(hub.subscription(a).unwrap().buffered(), 0);
}

#[test]
fn hub_offers_to_one_subscription_alone() {
    let mut hub = BroadcastHub::new();
    let a = hub.subscribe(Scope::All, 4, OverflowPolicy::DropOldest);
    let b = hub.subscribe(Scope::All, 4, OverflowPolicy::DropOldest);
    hub.offer_to(b, &update(1, 1));
    assert_eq!(hub.poll(a), None);
    assert_eq!(hub.poll(b), Some(Event::Update(update(1, 1))));
}

#[test]
fn hub_cancel_touches_one_subscription() {
    let mut hub = BroadcastHub::new();
    let a = hub.subscribe(Scope::All, 4, OverflowPolicy::DropOldest);
    let b = hub.subscribe(Scope::All, 4, OverflowPolicy::DropOldest);
    hub.publish(&update(1, 1));
    hub.cancel(a);
    hub.publish(&update(1, 2));
    assert_eq!(hub.subscription(a).unwrap().state(), SubscriptionState::Cancelled);
    assert_eq!(hub.poll(a), None);
    assert_eq!(hub.poll(b), Some(Event::Update(update(1, 1))));
    assert_eq!(hub.poll(b), Some(Event::Update(update(1, 2))));
    let c = hub.subscribe(Scope::All, 4, OverflowPolicy::DropOldest);
    assert_eq!(c, 2);
}
