use arcana::deck::DeckStatus;
use arcana::deck::Decks;
use arcana::deck::PlayerDeck;
use arcana::deck::SharedDecks;

fn draw_all(decks: &mut Decks, name: &String) -> Vec<u8> {
    let mut drawn = Vec::new();
    while let Some(card) = decks.get_card(name) {
        drawn.push(card);
    }
    drawn
}

#[test]
fn insert_gives_full_distinct_deck() {
    let mut decks = Decks::new();
    let alice = String::from("alice");
    let status = decks.insert_deck(&alice);
    assert_eq!(status, DeckStatus::InsertOk);
    assert_eq!(decks.get_last_drawn(&alice), None);
    assert!(decks.has_player(&alice));
    assert!(!decks.is_last_card(&alice));

    let mut drawn = draw_all(&mut decks, &alice);
    assert_eq!(drawn.len(), 22);
    drawn.sort();
    let expected: Vec<u8> = (0..22).collect();
    assert_eq!(drawn, expected);
}

#[test]
fn draws_are_distinct_until_exhausted() {
    let mut decks = Decks::new();
    let alice = String::from("alice");
    decks.insert_deck(&alice);

    let mut seen = Vec::new();
    for turn in 0..22 {
        assert_eq!(decks.is_last_card(&alice), false, "not empty before draw {}", turn);
        let card = decks.get_card(&alice).expect("deck has cards left");
        assert!(!seen.contains(&card), "card {} repeated", card);
        assert!(card < 22);
        assert_eq!(decks.get_last_drawn(&alice), Some(card));
        seen.push(card);
    }
    // The draw that emptied the deck made is_last_card true, and it stays
    // true while further draws keep returning nothing.
    assert!(decks.is_last_card(&alice));
    assert_eq!(decks.get_card(&alice), None);
    assert!(decks.is_last_card(&alice));
    // The empty draw kept the record of the last card actually removed.
    assert_eq!(decks.get_last_drawn(&alice), seen.last().copied());
    // Until the next shuffle resets the pool.
    decks.shuffle_deck(&alice);
    assert!(!decks.is_last_card(&alice));
    assert_eq!(decks.get_last_drawn(&alice), None);
}

#[test]
fn shuffle_resets_pool_to_full_permutation() {
    let mut decks = Decks::new();
    let bob = String::from("bob");
    decks.insert_deck(&bob);
    for _ in 0..5 {
        decks.get_card(&bob).expect("deck has cards left");
    }
    decks.shuffle_deck(&bob);
    assert_eq!(decks.get_last_drawn(&bob), None);
    let mut drawn = draw_all(&mut decks, &bob);
    assert_eq!(drawn.len(), 22);
    drawn.sort();
    let expected: Vec<u8> = (0..22).collect();
    assert_eq!(drawn, expected);
    assert_eq!(decks.get_card(&bob), None);
}

#[test]
fn insert_is_idempotent() {
    let mut decks = Decks::new();
    let alice = String::from("alice");
    assert_eq!(decks.insert_deck(&alice), DeckStatus::InsertOk);
    for _ in 0..3 {
        decks.get_card(&alice).expect("deck has cards left");
    }
    let last = decks.get_last_drawn(&alice);
    assert!(last.is_some());
    // A second insert reports the player and resets nothing.
    assert_eq!(decks.insert_deck(&alice), DeckStatus::PlayerExists);
    assert_eq!(decks.get_last_drawn(&alice), last);
    let rest = draw_all(&mut decks, &alice);
    assert_eq!(rest.len(), 19, "in-progress deck was not reset");
}

#[test]
fn unregistered_player_operations() {
    let mut decks = Decks::new();
    let carol = String::from("carol");
    assert!(!decks.has_player(&carol));
    assert_eq!(decks.get_card(&carol), None);
    assert_eq!(decks.get_last_drawn(&carol), None);
    assert_eq!(decks.is_last_card(&carol), false);
    decks.shuffle_deck(&carol);
    assert!(!decks.has_player(&carol));
    assert!(decks.get_players().is_empty());
}

#[test]
fn get_players_lists_registration_order() {
    let mut decks = Decks::new();
    let names = ["alice", "bob", "carol"];
    for n in names {
        decks.insert_deck(&String::from(n));
    }
    let players = decks.get_players();
    assert_eq!(players, vec![
        String::from("alice"),
        String::from("bob"),
        String::from("carol"),
    ]);
}

#[test]
fn stacked_deck_draws_in_stack_order() {
    let cards: Vec<u8> = vec![5, 19, 0, 1, 2, 3, 4, 6, 7, 8, 9, 10, 11, 12, 13, 14, 15, 16, 17, 18, 20, 21];
    let alice = String::from("alice");
    let mut decks = Decks {
        entries: vec![PlayerDeck { name: alice.clone(), cards: cards.clone(), last_drawn: None }],
    };
    for expect in cards.iter().rev() {
        assert_eq!(decks.get_card(&alice), Some(*expect));
    }
    assert_eq!(decks.get_card(&alice), None);
}

#[test]
fn player_deck_operations() {
    let mut deck = PlayerDeck { name: String::from("alice"), cards: vec![2, 9], last_drawn: None };
    assert!(!deck.is_empty());
    assert_eq!(deck.draw(), Some(9));
    assert_eq!(deck.last_drawn_card(), Some(9));
    assert_eq!(deck.draw(), Some(2));
    assert!(deck.is_empty());
    // An empty draw yields nothing and keeps the record of the last
    // card actually removed.
    assert_eq!(deck.draw(), None);
    assert_eq!(deck.last_drawn_card(), Some(2));
    deck.shuffle();
    assert!(!deck.is_empty());
    assert_eq!(deck.last_drawn_card(), None);
    let mut drawn = Vec::new();
    while let Some(card) = deck.draw() {
        drawn.push(card);
    }
    drawn.sort();
    let expected: Vec<u8> = (0..22).collect();
    assert_eq!(drawn, expected);
}

#[test]
fn shared_decks_wraps_registry() {
    let shared = SharedDecks::new();
    let dora = String::from("dora");
    {
        let mut guard = shared.data.lock().expect("lock poisoned");
        assert_eq!(guard.insert_deck(&dora), DeckStatus::InsertOk);
    }
    let guard = shared.data.lock().expect("lock poisoned");
    assert!(guard.has_player(&dora));
}
