use arcana::comms::Resolution;
use arcana::comms::resolve;
use arcana::deck::Decks;
use arcana::deck::PlayerDeck;
use arcana::hub::BroadcastHub;
use arcana::session::UserState;
use arcana::session::get_card;
use arcana::session::new_deck;
use arcana::session::shuffle_deck;
use arcana::session::snapshot_for;

fn pairs(states: &[UserState]) -> Vec<(String, Option<u8>)> {
    states.iter().map(|s| (s.name.clone(), s.last_drawn)).collect()
}

#[test]
fn snapshot_lists_self_first_then_others() {
    let mut decks = Decks::new();
    let alice = String::from("alice");
    let bob = String::from("bob");

    decks.insert_deck(&alice);
    let snap = snapshot_for(&decks, &alice);
    assert_eq!(pairs(&snap), vec![(String::from("alice"), None)]);

    decks.insert_deck(&bob);
    let snap = snapshot_for(&decks, &alice);
    assert_eq!(
        pairs(&snap),
        vec![(String::from("alice"), None), (String::from("bob"), None)]
    );

    let snap = snapshot_for(&decks, &bob);
    assert_eq!(
        pairs(&snap),
        vec![(String::from("bob"), None), (String::from("alice"), None)]
    );
}

#[test]
fn join_announces_new_player_once() {
    let mut decks = Decks::new();
    let mut hub = BroadcastHub::new(1024);
    let observer = hub.subscribe();
    let alice = String::from("alice");

    let snap = new_deck(&mut decks, &mut hub, &alice);
    assert_eq!(pairs(&snap), vec![(String::from("alice"), None)]);
    let msg = hub.try_recv(observer).expect("join was announced");
    assert_eq!(msg.name, "alice");
    assert_eq!(msg.arcana, None);
    assert!(!msg.is_shuffle);
    assert!(!msg.is_last_card);

    // Joining again is idempotent and silent.
    let snap = new_deck(&mut decks, &mut hub, &alice);
    assert_eq!(pairs(&snap), vec![(String::from("alice"), None)]);
    assert!(hub.try_recv(observer).is_none());
}

#[test]
fn stacked_deck_full_draw_run() {
    let cards: Vec<u8> = vec![
        5, 19, 0, 1, 2, 3, 4, 6, 7, 8, 9, 10, 11, 12, 13, 14, 15, 16, 17, 18, 20, 21,
    ];
    let alice = String::from("alice");
    let mut decks = Decks {
        entries: vec![PlayerDeck { name: alice.clone(), cards: cards.clone(), last_drawn: None }],
    };
    let mut hub = BroadcastHub::new(1024);
    let observer = hub.subscribe();

    // 22 consecutive draws return all 22 values exactly once, in stack
    // order, and only the 22nd reports the last card.
    for (turn, expect) in cards.iter().rev().enumerate() {
        let resp = get_card(&mut decks, &mut hub, &alice);
        assert_eq!(resp.arcana, Some(*expect));
        assert!(resp.error.is_none());
        assert_eq!(resp.is_last_card, turn == 21);
        let msg = hub.try_recv(observer).expect("draw was announced");
        assert_eq!(msg.name, "alice");
        assert_eq!(msg.arcana, Some(*expect));
        assert!(!msg.is_shuffle);
        assert_eq!(msg.is_last_card, turn == 21);
    }

    // The 23rd draw reports an empty deck, is not announced, and
    // keeps the record of the last card actually drawn.
    let resp = get_card(&mut decks, &mut hub, &alice);
    assert_eq!(resp.arcana, None);
    assert_eq!(resp.error.as_deref(), Some("Deck is empty"));
    assert!(!resp.is_last_card);
    assert!(hub.try_recv(observer).is_none());
    let snap = snapshot_for(&decks, &alice);
    assert_eq!(pairs(&snap), vec![(String::from("alice"), Some(5))]);
}

#[test]
fn draw_without_deck_reports_no_deck_and_no_broadcast() {
    let mut decks = Decks::new();
    let mut hub = BroadcastHub::new(1024);
    let observer = hub.subscribe();
    let carol = String::from("carol");

    let resp = get_card(&mut decks, &mut hub, &carol);
    assert_eq!(resp.arcana, None);
    assert_eq!(resp.error.as_deref(), Some("Please create a deck first"));
    assert!(!resp.is_last_card);
    assert!(hub.try_recv(observer).is_none());
}

#[test]
fn shuffle_announces_for_registered_player_only() {
    let mut decks = Decks::new();
    let mut hub = BroadcastHub::new(1024);
    let observer = hub.subscribe();
    let alice = String::from("alice");
    let carol = String::from("carol");

    // Shuffling an unregistered player changes nothing and is silent.
    shuffle_deck(&mut decks, &mut hub, &carol);
    assert!(hub.try_recv(observer).is_none());

    decks.insert_deck(&alice);
    decks.get_card(&alice).expect("deck has cards left");
    shuffle_deck(&mut decks, &mut hub, &alice);
    let msg = hub.try_recv(observer).expect("shuffle was announced");
    assert_eq!(msg.name, "alice");
    assert_eq!(msg.arcana, None);
    assert!(msg.is_shuffle);
    assert!(!msg.is_last_card);
    assert_eq!(decks.get_last_drawn(&alice), None);
}

#[test]
fn snapshot_reflects_last_draws() {
    let mut decks = Decks::new();
    let mut hub = BroadcastHub::new(1024);
    let alice = String::from("alice");
    let bob = String::from("bob");
    new_deck(&mut decks, &mut hub, &alice);
    new_deck(&mut decks, &mut hub, &bob);

    let resp = get_card(&mut decks, &mut hub, &bob);
    let card = resp.arcana.expect("bob drew a card");
    let snap = snapshot_for(&decks, &alice);
    assert_eq!(
        pairs(&snap),
        vec![(String::from("alice"), None), (String::from("bob"), Some(card))]
    );
}

#[test]
fn resolve_accepts_query_without_cookie() {
    match resolve(None, Some(String::from("alice"))) {
        Resolution::Accept(id) => assert_eq!(id, "alice"),
        _ => panic!("expected the query identity to be accepted"),
    }
}

#[test]
fn resolve_forwards_without_any_identity() {
    assert!(matches!(resolve(None, None), Resolution::Forward));
}

#[test]
fn resolve_prefers_cookie_identity() {
    match resolve(Some(String::from("alice")), None) {
        Resolution::Accept(id) => assert_eq!(id, "alice"),
        _ => panic!("expected the cookie identity to be accepted"),
    }
    match resolve(Some(String::from("alice")), Some(String::from("alice"))) {
        Resolution::Accept(id) => assert_eq!(id, "alice"),
        _ => panic!("expected the matching identity to be accepted"),
    }
}

#[test]
fn resolve_rejects_mismatched_identities() {
    match resolve(Some(String::from("alice")), Some(String::from("bob"))) {
        Resolution::Reject(reason) => {
            assert_eq!(reason, "You cannot login with multiple usernames")
        },
        _ => panic!("expected mismatched identities to be rejected"),
    }
}
