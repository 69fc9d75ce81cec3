//! Who a channel wakes, and when.

use rdlt_engine::watch::{Channel, Receiver, Waited};

/// The order eight receivers waiting on one channel wake in when it changes.
fn woken() -> Vec<u64> {
    let (mut channel, receiver) = Channel::channel(0_u64);
    for index in 0..8 {
        let mut waiter = receiver;
        assert_eq!(channel.changed(&mut waiter), Waited::Waiting(index));
    }
    let (replaced, order) = channel.send_replace(1);
    assert_eq!(replaced, 0);
    order
}

#[test]
fn waiters_wake_in_the_same_order_every_time() {
    let first = woken();
    assert_eq!(first.len(), 8);
    for _ in 0..20 {
        assert_eq!(woken(), first);
    }
    assert_eq!(first, [0, 1, 2, 3, 4, 5, 6, 7], "the order they began to wait in");
}

#[test]
fn a_change_sent_before_waiting_is_seen_once() {
    let (mut channel, mut receiver) = Channel::channel(0_u64);
    channel.send_replace(1);
    assert_eq!(channel.changed(&mut receiver), Waited::Ready);
    assert!(matches!(channel.changed(&mut receiver), Waited::Waiting(_)), "the change was seen");
}

#[test]
fn a_new_receiver_waits_for_the_next_change() {
    let (mut channel, _first) = Channel::channel(0_u64);
    channel.send_replace(1);
    let mut receiver = channel.subscribe();
    let Waited::Waiting(ticket) = channel.changed(&mut receiver) else {
        panic!("nothing was sent since")
    };
    let (_, order) = channel.send_replace(2);
    assert_eq!(order, [ticket]);
    assert_eq!(channel.changed(&mut receiver), Waited::Ready);
}

#[test]
fn a_receiver_that_took_the_value_waits_for_the_next() {
    let (mut channel, mut receiver) = Channel::channel(0_u64);
    channel.send_replace(1);
    assert_eq!(*channel.borrow_and_update(&mut receiver), 1);
    assert!(matches!(channel.changed(&mut receiver), Waited::Waiting(_)));
}

/// Waits on `channel` until it holds `true`.
fn until_held(channel: &mut Channel<bool>, receiver: &mut Receiver) -> Waited {
    let ready = *channel.borrow();
    channel.wait_for(receiver, ready)
}

#[test]
fn waiting_for_a_value_ends_once_it_holds() {
    let (mut channel, mut receiver) = Channel::channel(true);
    assert_eq!(until_held(&mut channel, &mut receiver), Waited::Ready);
    channel.send_replace(false);
    assert!(matches!(until_held(&mut channel, &mut receiver), Waited::Waiting(_)));
    channel.send_replace(true);
    assert_eq!(until_held(&mut channel, &mut receiver), Waited::Ready);
}

#[test]
fn receivers_learn_the_sender_is_gone() {
    let (mut channel, mut receiver) = Channel::channel(false);
    let mut other = receiver;
    let Waited::Waiting(ticket) = channel.changed(&mut receiver) else {
        panic!("nothing was sent")
    };
    assert_eq!(channel.close(), [ticket]);
    assert_eq!(channel.changed(&mut receiver), Waited::Closed);
    assert_eq!(until_held(&mut channel, &mut other), Waited::Closed);
}

#[test]
fn a_value_sent_before_the_sender_went_is_still_seen() {
    let (mut channel, mut receiver) = Channel::channel(0_u64);
    channel.send_replace(1);
    channel.close();
    assert_eq!(channel.changed(&mut receiver), Waited::Ready);
    assert_eq!(channel.changed(&mut receiver), Waited::Closed);
}

#[test]
fn tickets_are_free_again_once_their_holders_are_woken_or_leave() {
    let (mut channel, receiver) = Channel::channel(0_u64);
    let mut wait = |channel: &mut Channel<u64>| {
        let mut waiter = receiver;
        channel.wait_for(&mut waiter, false)
    };
    for ticket in 0..3 {
        assert_eq!(wait(&mut channel), Waited::Waiting(ticket));
    }
    channel.leave(0);
    channel.leave(9);
    assert_eq!(wait(&mut channel), Waited::Waiting(0), "the least that is free");
    let (_, order) = channel.send_replace(1);
    assert_eq!(order, [1, 2, 0], "the order they began to wait in");
    assert_eq!(wait(&mut channel), Waited::Waiting(0), "all were woken");
}

#[test]
fn one_who_leaves_is_not_woken() {
    let (mut channel, receiver) = Channel::channel(0_u64);
    let mut waiters = [receiver, receiver, receiver];
    for waiter in &mut waiters {
        channel.changed(waiter);
    }
    channel.leave(1);
    let (_, order) = channel.send_replace(1);
    assert_eq!(order, [0, 2]);
}
