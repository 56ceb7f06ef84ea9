//! The session coordinator: per incoming action it performs one
//! registry mutation, then publishes exactly one broadcast message
//! describing it, and assembles the multi-player view a response
//! needs.

use vstd::prelude::*;
use crate::comms::DeckResponse;
use crate::comms::Message;
use crate::comms::MessageView;
use crate::deck::DeckView;
use crate::deck::Decks;
use crate::deck::deck_inserted;
use crate::deck::deck_shuffled;
use crate::hub::BroadcastHub;
use crate::hub::spec_publish;

verus! {

/// One player's visible state in a session snapshot: identity and
/// last drawn card.
pub struct UserState {
    pub name: String,
    pub last_drawn: Option<u8>,
}

impl View for UserState {
    type V = (Seq<char>, Option<u8>);

    open spec fn view(&self) -> (Seq<char>, Option<u8>) {
        (self.name@, self.last_drawn)
    }
}

/// The contents of a snapshot, as pairs of identity and last draw.
pub open spec fn states_view(s: Seq<UserState>) -> Seq<(Seq<char>, Option<u8>)> {
    s.map_values(|u: UserState| u@)
}

/// The `(identity, last drawn)` pairs of every player in `names`
/// except `me`, keeping the order of `names`.
pub open spec fn others_of(
    d: Map<Seq<char>, DeckView>,
    names: Seq<Seq<char>>,
    me: Seq<char>,
) -> Seq<(Seq<char>, Option<u8>)>
    decreases names.len(),
{
    if names.len() == 0 {
        Seq::empty()
    } else {
        let rest = others_of(d, names.drop_last(), me);
        if names.last() == me {
            rest
        } else {
            rest.push((names.last(), d[names.last()].last_drawn))
        }
    }
}

/// A full session snapshot for `me`: the requesting player first,
/// then every other registered player in registration order.
pub open spec fn snapshot_of(
    d: Map<Seq<char>, DeckView>,
    names: Seq<Seq<char>>,
    me: Seq<char>,
) -> Seq<(Seq<char>, Option<u8>)> {
    seq![
        (me, if d.contains_key(me) {
            d[me].last_drawn
        } else {
            None
        }),
    ] + others_of(d, names, me)
}

/// The broadcast message announcing that a player joined.
pub open spec fn join_message(me: Seq<char>) -> MessageView {
    MessageView { name: me, arcana: None, is_shuffle: false, is_last_card: false }
}

/// The broadcast message announcing that a player shuffled.
pub open spec fn shuffle_message(me: Seq<char>) -> MessageView {
    MessageView { name: me, arcana: None, is_shuffle: true, is_last_card: false }
}

/// The broadcast message announcing a successful draw.
pub open spec fn draw_message(me: Seq<char>, card: u8, last: bool) -> MessageView {
    MessageView { name: me, arcana: Some(card), is_shuffle: false, is_last_card: last }
}

/// Appends to `states` the state of every registered player other
/// than the one `states` starts with, in registration order.
pub fn get_others(states: &mut Vec<UserState>, decks: &Decks)
    requires
        decks.wf(),
        old(states)@.len() >= 1,
    ensures
        final(states)@.len() >= old(states)@.len(),
        forall|j: int| 0 <= j < old(states)@.len() ==> final(states)@[j] == old(states)@[j],
        states_view(final(states)@.skip(old(states)@.len() as int)) == others_of(
            decks@,
            decks.names(),
            old(states)@[0].name@,
        ),
{
    let ghost base = states@;
    let ghost me = base[0].name@;
    let mut i: usize = 0;
    while i < decks.entries.len()
        invariant
            decks.wf(),
            base.len() >= 1,
            me == base[0].name@,
            i <= decks.entries@.len(),
            states@.len() >= base.len(),
            forall|j: int| 0 <= j < base.len() ==> states@[j] == base[j],
            states_view(states@.skip(base.len() as int)) == others_of(
                decks@,
                decks.names().take(i as int),
                me,
            ),
        decreases decks.entries@.len() - i,
    {
        let ghost states_before = states@;
        proof {
            decks.lemma_entry_is_view(i as int);
            assert(states@[0] == base[0]);
        }
        if !decks.entries[i].name.eq(&states[0].name) {
            let ld = decks.get_last_drawn(&decks.entries[i].name);
            states.push(UserState { last_drawn: ld, name: decks.entries[i].name.clone() });
        }
        proof {
            let k = decks.entries@[i as int].name@;
            let taken = decks.names().take(i as int + 1);
            assert(taken.drop_last() =~= decks.names().take(i as int));
            assert(taken.last() == decks.names()[i as int]);
            assert(decks.names()[i as int] == k);
            if k == me {
                assert(states@ == states_before);
            } else {
                assert(states@ == states_before.push(states@.last()));
                assert(states@.last()@ == (k, decks@[k].last_drawn));
                assert(states_view(states@.skip(base.len() as int)) =~= states_view(
                    states_before.skip(base.len() as int),
                ).push((k, decks@[k].last_drawn)));
            }
            assert(states_view(states@.skip(base.len() as int)) == others_of(
                decks@,
                taken,
                me,
            ));
        }
        i += 1;
    }
    proof {
        assert(decks.names().take(decks.entries@.len() as int) =~= decks.names());
    }
}

/// Builds the rendered-view snapshot for `player_name`: that player's
/// state first, then every other registered player's, in registration
/// order.
pub fn snapshot_for(decks: &Decks, player_name: &String) -> (states: Vec<UserState>)
    requires
        decks.wf(),
    ensures
        states_view(states@) == snapshot_of(decks@, decks.names(), player_name@),
{
    let mut states: Vec<UserState> = Vec::new();
    states.push(
        UserState { last_drawn: decks.get_last_drawn(player_name), name: player_name.clone() },
    );
    let ghost first = states@[0];
    get_others(&mut states, decks);
    proof {
        let me = player_name@;
        let rest = others_of(decks@, decks.names(), me);
        assert(states@[0] == first);
        assert(states_view(states@.skip(1)) == rest);
        assert forall|j: int| 0 <= j < states@.len() implies #[trigger] states_view(states@)[j]
            == snapshot_of(decks@, decks.names(), me)[j] by {
            if j >= 1 {
                assert(states_view(states@.skip(1))[j - 1] == states@.skip(1)[j - 1]@);
                assert(states@.skip(1)[j - 1] == states@[j]);
            }
        }
        assert(states_view(states@) =~= snapshot_of(decks@, decks.names(), me));
    }
    states
}

/// The join/visit operation: a player not yet registered receives a
/// freshly shuffled deck and the join is announced to every
/// subscriber; an already-registered player changes nothing and
/// nothing is published. Either way the caller gets the full-session
/// snapshot, the requesting player first.
pub fn new_deck(decks: &mut Decks, queue: &mut BroadcastHub, name: &String) -> (states: Vec<
    UserState,
>)
    requires
        old(decks).wf(),
        old(queue).wf(),
    ensures
        final(decks).wf(),
        final(queue).wf(),
        final(queue).capacity == old(queue).capacity,
        final(queue).next_id == old(queue).next_id,
        old(decks)@.contains_key(name@) ==> final(decks)@ == old(decks)@ && final(decks).names()
            == old(decks).names() && final(queue)@ == old(queue)@,
        !old(decks)@.contains_key(name@) ==> deck_inserted(old(decks)@, final(decks)@, name@)
            && final(decks).names() == old(decks).names().push(name@) && final(queue)@
            == spec_publish(old(queue)@, join_message(name@), old(queue).capacity as nat),
        states_view(states@) == snapshot_of(final(decks)@, final(decks).names(), name@),
    {
    if !decks.has_player(name) {
        let _status = decks.insert_deck(name);
        let msg = Message {
            name: name.clone(),
            arcana: None,
            is_shuffle: false,
            is_last_card: false,
        };
        queue.publish(&msg);
    }
    snapshot_for(decks, name)
}

/// The draw operation: an unregistered player is told to create a
/// deck first and nothing is published; a registered player with an
/// empty deck is told the deck is empty and nothing is published; a
/// successful draw returns the card, reports whether it was the last
/// one, and is announced to every subscriber.
pub fn get_card(decks: &mut Decks, queue: &mut BroadcastHub, name: &String) -> (resp:
    DeckResponse)
    requires
        old(decks).wf(),
        old(queue).wf(),
    ensures
        final(decks).wf(),
        final(queue).wf(),
        final(decks).names() == old(decks).names(),
        final(queue).capacity == old(queue).capacity,
        final(queue).next_id == old(queue).next_id,
        !old(decks)@.contains_key(name@) ==> final(decks)@ == old(decks)@ && final(queue)@
            == old(queue)@ && resp.arcana is None && resp.is_last_card == false && (
        resp.error matches Some(e) && e@ == "Please create a deck first"@),
        old(decks)@.contains_key(name@) ==> {
            let pre = old(decks)@[name@];
            if pre.cards.len() > 0 {
                &&& resp.arcana == Some(pre.cards.last())
                &&& resp.error is None
                &&& resp.is_last_card == (pre.cards.len() == 1)
                &&& final(decks)@ == old(decks)@.insert(
                    name@,
                    DeckView { cards: pre.cards.drop_last(), last_drawn: Some(pre.cards.last()) },
                )
                &&& final(queue)@ == spec_publish(
                    old(queue)@,
                    draw_message(name@, pre.cards.last(), pre.cards.len() == 1),
                    old(queue).capacity as nat,
                )
            } else {
                &&& resp.arcana is None
                &&& (resp.error matches Some(e) && e@ == "Deck is empty"@)
                &&& resp.is_last_card == false
                &&& final(decks)@ == old(decks)@
                &&& final(queue)@ == old(queue)@
            }
        },
    {
    if !decks.has_player(name) {
        return DeckResponse {
            arcana: None,
            error: Some("Please create a deck first".to_owned()),
            is_last_card: false,
        };
    }
    match decks.get_card(name) {
        Some(card) => {
            let last_card = decks.is_last_card(name);
            let msg = Message {
                name: name.clone(),
                arcana: Some(card),
                is_shuffle: false,
                is_last_card: last_card,
            };
            queue.publish(&msg);
            DeckResponse { arcana: Some(card), error: None, is_last_card: last_card }
        },
        None => DeckResponse {
            arcana: None,
            error: Some("Deck is empty".to_owned()),
            is_last_card: false,
        },
    }
}

/// The shuffle operation: a registered player's deck is refilled and
/// reshuffled and the shuffle is announced to every subscriber; an
/// unregistered player changes nothing and nothing is published.
pub fn shuffle_deck(decks: &mut Decks, queue: &mut BroadcastHub, name: &String)
    requires
        old(decks).wf(),
        old(queue).wf(),
    ensures
        final(decks).wf(),
        final(queue).wf(),
        final(decks).names() == old(decks).names(),
        final(queue).capacity == old(queue).capacity,
        final(queue).next_id == old(queue).next_id,
        !old(decks)@.contains_key(name@) ==> final(decks)@ == old(decks)@ && final(queue)@
            == old(queue)@,
        old(decks)@.contains_key(name@) ==> deck_shuffled(old(decks)@, final(decks)@, name@)
            && final(queue)@ == spec_publish(
            old(queue)@,
            shuffle_message(name@),
            old(queue).capacity as nat,
        ),
{
    if decks.has_player(name) {
        decks.shuffle_deck(name);
        let msg = Message {
            name: name.clone(),
            arcana: None,
            is_shuffle: true,
            is_last_card: false,
        };
        queue.publish(&msg);
    }
}

} // verus!
