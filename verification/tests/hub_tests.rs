use arcana::comms::Message;
use arcana::hub::BroadcastHub;

fn message(name: &str, arcana: Option<u8>) -> Message {
    Message { name: String::from(name), arcana, is_shuffle: false, is_last_card: false }
}

#[test]
fn every_active_subscriber_observes_in_order() {
    let mut hub = BroadcastHub::new(1024);
    let first = hub.subscribe();
    let second = hub.subscribe();
    assert_ne!(first, second);

    hub.publish(&message("alice", Some(3)));
    hub.publish(&message("alice", Some(7)));

    for id in [first, second] {
        let m1 = hub.try_recv(id).expect("first message delivered");
        assert_eq!(m1.name, "alice");
        assert_eq!(m1.arcana, Some(3));
        let m2 = hub.try_recv(id).expect("second message delivered");
        assert_eq!(m2.arcana, Some(7));
        assert!(hub.try_recv(id).is_none());
    }
}

#[test]
fn unsubscribed_receives_nothing_later() {
    let mut hub = BroadcastHub::new(1024);
    let gone = hub.subscribe();
    let stays = hub.subscribe();
    hub.unsubscribe(gone);
    assert!(!hub.has_subscriber(gone));

    hub.publish(&message("bob", None));
    assert!(hub.try_recv(gone).is_none());
    assert!(hub.try_recv(stays).is_some());

    // Unsubscribing again is a harmless no-op.
    hub.unsubscribe(gone);
    assert!(!hub.has_subscriber(gone));
}

#[test]
fn unsubscribe_discards_enqueued_messages() {
    let mut hub = BroadcastHub::new(1024);
    let id = hub.subscribe();
    hub.publish(&message("alice", Some(1)));
    hub.unsubscribe(id);
    assert!(hub.try_recv(id).is_none());
}

#[test]
fn lagging_subscriber_loses_oldest_only() {
    let mut hub = BroadcastHub::new(2);
    let slow = hub.subscribe();
    let fast = hub.subscribe();

    hub.publish(&message("alice", Some(0)));
    hub.publish(&message("alice", Some(1)));
    // The fast consumer drains; the slow one lets its queue fill up.
    assert_eq!(hub.try_recv(fast).expect("delivered").arcana, Some(0));
    assert_eq!(hub.try_recv(fast).expect("delivered").arcana, Some(1));
    hub.publish(&message("alice", Some(2)));

    // The slow consumer lost the oldest message, nothing else.
    assert_eq!(hub.try_recv(slow).expect("delivered").arcana, Some(1));
    assert_eq!(hub.try_recv(slow).expect("delivered").arcana, Some(2));
    assert!(hub.try_recv(slow).is_none());
    // The publisher and the fast consumer were never held up.
    assert_eq!(hub.try_recv(fast).expect("delivered").arcana, Some(2));
}

#[test]
fn publish_without_subscribers_is_noop() {
    let mut hub = BroadcastHub::new(8);
    hub.publish(&message("alice", None));
    let id = hub.subscribe();
    // A subscriber sees only what is published after it subscribed.
    assert!(hub.try_recv(id).is_none());
}

#[test]
fn try_recv_unknown_id_is_none() {
    let mut hub = BroadcastHub::new(8);
    assert!(hub.try_recv(41).is_none());
    assert!(!hub.has_subscriber(41));
}
