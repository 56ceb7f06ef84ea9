//! Per-player card decks and the registry that maps each player to one.
//!
//! A deck holds at most the 22 distinct card values `0..22`; drawing
//! removes from the end, and a shuffle refills the deck with all 22
//! values in a fresh random order.

use vstd::prelude::*;

verus! {

/// Number of distinct card values in a full deck.
pub const DECK_SIZE: u8 = 22;

/// Status of a player's deck after an insertion attempt.
#[derive(Clone, Copy, Debug, PartialEq, Eq, Structural)]
pub enum DeckStatus {
    PlayerExists,
    InsertOk,
}

/// One player's deck: the undrawn cards (drawn from the end) and the
/// last card removed by a draw, if any since creation or last shuffle.
pub struct PlayerDeck {
    pub name: String,
    pub cards: Vec<u8>,
    pub last_drawn: Option<u8>,
}

/// Mathematical state of one deck: the undrawn cards and the last draw.
pub ghost struct DeckView {
    pub cards: Seq<u8>,
    pub last_drawn: Option<u8>,
}

/// The full deck in creation order: `0, 1, ..., 21`.
pub open spec fn full_deck() -> Seq<u8> {
    Seq::new(DECK_SIZE as nat, |i: int| i as u8)
}

/// A well-formed card sequence: every value is a card value and no
/// value occurs twice.
pub open spec fn card_seq_wf(s: Seq<u8>) -> bool {
    &&& forall|i: int| 0 <= i < s.len() ==> s[i] < DECK_SIZE
    &&& s.no_duplicates()
}

/// Association from player identity to deck, with each identity
/// appearing at most once.
pub struct Decks {
    pub entries: Vec<PlayerDeck>,
}

impl Decks {
    /// The registered identities, in insertion order.
    pub open spec fn names(self) -> Seq<Seq<char>> {
        self.entries@.map_values(|e: PlayerDeck| e.name@)
    }

    /// Registry invariant: identities are unique and every deck is
    /// well formed.
    pub open spec fn wf(self) -> bool {
        &&& forall|i: int, j: int|
            0 <= i < j < self.entries@.len() ==> self.entries@[i].name@ != self.entries@[j].name@
        &&& forall|i: int| 0 <= i < self.entries@.len() ==> card_seq_wf(self.entries@[i].cards@)
    }

    /// Index of the entry for `k`, meaningful only when one exists.
    pub open spec fn index_of(self, k: Seq<char>) -> int {
        choose|i: int| 0 <= i < self.entries@.len() && self.entries@[i].name@ == k
    }

    /// The mathematical state of the deck at entry `i`.
    pub open spec fn entry_view(self, i: int) -> DeckView {
        DeckView { cards: self.entries@[i].cards@, last_drawn: self.entries@[i].last_drawn }
    }
}

impl View for Decks {
    type V = Map<Seq<char>, DeckView>;

    open spec fn view(&self) -> Map<Seq<char>, DeckView> {
        Map::new(
            |k: Seq<char>| self.names().contains(k),
            |k: Seq<char>| self.entry_view(self.index_of(k)),
        )
    }
}

impl Decks {
    /// Under `wf`, the view of entry `i` is the view at its own name.
    pub proof fn lemma_entry_is_view(self, i: int)
        requires
            self.wf(),
            0 <= i < self.entries@.len(),
        ensures
            self@.contains_key(self.entries@[i].name@),
            self@[self.entries@[i].name@] == self.entry_view(i),
    {
        let k = self.entries@[i].name@;
        assert(self.names()[i] == k);
        assert(self.names().contains(k));
        let j = self.index_of(k);
        assert(0 <= j < self.entries@.len() && self.entries@[j].name@ == k);
        if i != j {
            assert(self.entries@[i].name@ != self.entries@[j].name@);
        }
    }

    /// A key is in the view exactly when some entry carries it.
    pub proof fn lemma_contains_key(self, k: Seq<char>)
        ensures
            self@.contains_key(k) <==> exists|i: int|
                0 <= i < self.entries@.len() && self.entries@[i].name@ == k,
    {
        if exists|i: int| 0 <= i < self.entries@.len() && self.entries@[i].name@ == k {
            let i = choose|i: int| 0 <= i < self.entries@.len() && self.entries@[i].name@ == k;
            assert(self.names()[i] == k);
        }
        if self.names().contains(k) {
            let i = choose|i: int| 0 <= i < self.names().len() && self.names()[i] == k;
            assert(self.entries@[i].name@ == k);
        }
    }

    /// Creates a new empty registry of card decks.
    pub fn new() -> (r: Decks)
        ensures
            r.wf(),
            r@ == Map::<Seq<char>, DeckView>::empty(),
            r.names() == Seq::<Seq<char>>::empty(),
    {
        let r = Decks { entries: Vec::new() };
        proof {
            assert(r.names() =~= Seq::<Seq<char>>::empty());
            assert(r@ =~= Map::<Seq<char>, DeckView>::empty());
        }
        r
    }

    /// Finds the entry for `player_name`, if one exists.
    fn find_entry(&self, player_name: &String) -> (r: Option<usize>)
        requires
            self.wf(),
        ensures
            match r {
                Some(i) => {
                    &&& i < self.entries@.len()
                    &&& self.entries@[i as int].name@ == player_name@
                    &&& self@.contains_key(player_name@)
                    &&& self.index_of(player_name@) == i as int
                },
                None => !self@.contains_key(player_name@),
            },
    {
        let ghost k = player_name@;
        let mut i: usize = 0;
        while i < self.entries.len()
            invariant
                self.wf(),
                i <= self.entries@.len(),
                forall|j: int| 0 <= j < i ==> self.entries@[j].name@ != k,
                k == player_name@,
            decreases self.entries@.len() - i,
        {
            if self.entries[i].name.eq(player_name) {
                proof {
                    self.lemma_entry_is_view(i as int);
                    let j = self.index_of(k);
                    assert(exists|m: int|
                        0 <= m < self.entries@.len() && self.entries@[m].name@ == k) by {
                        assert(self.entries@[i as int].name@ == k);
                    }
                    assert(0 <= j < self.entries@.len() && self.entries@[j].name@ == k);
                }
                return Some(i);
            }
            i += 1;
        }
        proof {
            self.lemma_contains_key(k);
        }
        None
    }

    /// Check if a player is associated with a deck.
    pub fn has_player(&self, player_name: &String) -> (r: bool)
        requires
            self.wf(),
        ensures
            r == self@.contains_key(player_name@),
    {
        self.find_entry(player_name).is_some()
    }

    /// Replacing one entry with another of the same name changes the
    /// view at that name only, and keeps the name order.
    proof fn lemma_update_view(pre: Decks, post: Decks, i: int)
        requires
            pre.wf(),
            0 <= i < pre.entries@.len(),
            post.entries@.len() == pre.entries@.len(),
            forall|j: int|
                0 <= j < pre.entries@.len() && j != i ==> post.entries@[j] == pre.entries@[j],
            post.entries@[i].name@ == pre.entries@[i].name@,
            card_seq_wf(post.entries@[i].cards@),
        ensures
            post.wf(),
            post.names() == pre.names(),
            post@.dom() == pre@.dom(),
            forall|k2: Seq<char>|
                pre@.contains_key(k2) && k2 != pre.entries@[i].name@ ==> post@[k2] == pre@[k2],
            post@.contains_key(pre.entries@[i].name@),
            post@[pre.entries@[i].name@] == post.entry_view(i),
    {
        let k = pre.entries@[i].name@;
        assert forall|j: int| 0 <= j < post.entries@.len() implies #[trigger] post.names()[j]
            == pre.names()[j] by {
            assert(post.names()[j] == post.entries@[j].name@);
        }
        assert(post.names() =~= pre.names());
        assert forall|a: int, b: int|
            0 <= a < b < post.entries@.len() implies post.entries@[a].name@
            != post.entries@[b].name@ by {
            assert(post.names()[a] == post.entries@[a].name@);
            assert(pre.names()[a] == pre.entries@[a].name@);
        }
        assert(post.wf());
        assert forall|k2: Seq<char>| post.names().contains(k2) == pre.names().contains(
            k2,
        ) by {}
        assert(post@.dom() =~= pre@.dom());
        assert forall|k2: Seq<char>|
            pre@.contains_key(k2) && k2 != k implies #[trigger] post@[k2] == pre@[k2] by {
            pre.lemma_contains_key(k2);
            let j = choose|j: int|
                0 <= j < pre.entries@.len() && pre.entries@[j].name@ == k2;
            assert(j != i);
            pre.lemma_entry_is_view(j);
            post.lemma_entry_is_view(j);
        }
        post.lemma_entry_is_view(i);
    }

    /// Appending an entry with a fresh name adds exactly that name to
    /// the view and leaves every existing deck untouched.
    proof fn lemma_push_view(pre: Decks, post: Decks)
        requires
            pre.wf(),
            post.entries@.len() == pre.entries@.len() + 1,
            forall|j: int|
                0 <= j < pre.entries@.len() ==> post.entries@[j] == pre.entries@[j],
            !pre@.contains_key(post.entries@.last().name@),
            card_seq_wf(post.entries@.last().cards@),
        ensures
            post.wf(),
            post.names() == pre.names().push(post.entries@.last().name@),
            post@.dom() == pre@.dom().insert(post.entries@.last().name@),
            forall|k2: Seq<char>|
                pre@.contains_key(k2) ==> post@[k2] == pre@[k2],
            post@.contains_key(post.entries@.last().name@),
            post@[post.entries@.last().name@] == post.entry_view(pre.entries@.len() as int),
    {
        let n = pre.entries@.len() as int;
        let k = post.entries@.last().name@;
        pre.lemma_contains_key(k);
        assert forall|j: int| 0 <= j < n implies #[trigger] post.names()[j] == pre.names()[j] by {
            assert(post.names()[j] == post.entries@[j].name@);
        }
        assert(post.names()[n] == k);
        assert(post.names() =~= pre.names().push(k));
        assert forall|a: int, b: int|
            0 <= a < b < post.entries@.len() implies post.entries@[a].name@
            != post.entries@[b].name@ by {
            if b < n {
                assert(pre.entries@[a].name@ != pre.entries@[b].name@);
            } else {
                assert(post.entries@[b].name@ == k);
                assert(pre.entries@[a].name@ != k);
            }
        }
        assert(post.wf());
        assert forall|k2: Seq<char>| #[trigger] post@.dom().contains(k2) == pre@.dom().insert(
            k,
        ).contains(k2) by {
            pre.lemma_contains_key(k2);
            post.lemma_contains_key(k2);
            if k2 == k {
                assert(post.entries@[n].name@ == k2);
                assert(post@.contains_key(k2));
            }
        }
        assert(post@.dom() =~= pre@.dom().insert(k));
        assert forall|k2: Seq<char>|
            pre@.contains_key(k2) implies #[trigger] post@[k2] == pre@[k2] by {
            pre.lemma_contains_key(k2);
            let j = choose|j: int|
                0 <= j < pre.entries@.len() && pre.entries@[j].name@ == k2;
            pre.lemma_entry_is_view(j);
            post.lemma_entry_is_view(j);
        }
        post.lemma_entry_is_view(n);
    }
}

/// What a shuffle of `k`'s deck does to the registry: every other deck
/// is untouched, and `k`'s deck now holds a permutation of the full
/// deck with no draw recorded.
pub open spec fn deck_shuffled(
    pre: Map<Seq<char>, DeckView>,
    post: Map<Seq<char>, DeckView>,
    k: Seq<char>,
) -> bool {
    &&& post.dom() == pre.dom()
    &&& forall|k2: Seq<char>| pre.contains_key(k2) && k2 != k ==> post[k2] == pre[k2]
    &&& post.contains_key(k)
    &&& post[k].last_drawn is None
    &&& post[k].cards.to_multiset() == full_deck().to_multiset()
}

/// What a fresh insertion of `k` does to the registry: exactly `k` is
/// added, holding a freshly shuffled full deck, and every existing
/// deck is untouched.
pub open spec fn deck_inserted(
    pre: Map<Seq<char>, DeckView>,
    post: Map<Seq<char>, DeckView>,
    k: Seq<char>,
) -> bool {
    &&& post.dom() == pre.dom().insert(k)
    &&& forall|k2: Seq<char>| pre.contains_key(k2) && k2 != k ==> post[k2] == pre[k2]
    &&& post[k].last_drawn is None
    &&& post[k].cards.to_multiset() == full_deck().to_multiset()
}

/// Relies on rand's `SliceRandom::shuffle`: reorders the slice in
/// place uniformly at random, keeping exactly the same elements.
#[verifier::external_body]
fn shuffle_cards(cards: &mut Vec<u8>)
    ensures
        final(cards)@.to_multiset() == old(cards)@.to_multiset(),
{
    rand::seq::SliceRandom::shuffle(cards.as_mut_slice(), &mut rand::thread_rng());
}

/// A sequence that holds the same cards as the full deck is a
/// permutation of it: 22 cards long, well formed, with every card
/// value present.
pub proof fn lemma_full_deck_permutation(s: Seq<u8>)
    requires
        s.to_multiset() == full_deck().to_multiset(),
    ensures
        s.len() == DECK_SIZE,
        card_seq_wf(s),
        forall|v: u8| v < DECK_SIZE ==> s.contains(v),
{
    broadcast use vstd::seq_lib::group_to_multiset_ensures;

    let fd = full_deck();
    assert forall|a: int, b: int| 0 <= a < b < fd.len() implies fd[a] != fd[b] by {}
    assert(fd.no_duplicates());
    fd.lemma_multiset_has_no_duplicates();
    assert(s.len() == s.to_multiset().len());
    assert(fd.len() == fd.to_multiset().len());
    assert forall|x: u8| s.to_multiset().contains(x) implies s.to_multiset().count(x) == 1 by {
        assert(fd.to_multiset().contains(x));
    }
    s.lemma_multiset_has_no_duplicates_conv();
    assert forall|i: int| 0 <= i < s.len() implies s[i] < DECK_SIZE by {
        assert(s.contains(s[i]));
        assert(fd.to_multiset().contains(s[i]));
        assert(fd.contains(s[i]));
        let j = choose|j: int| 0 <= j < fd.len() && fd[j] == s[i];
    }
    assert forall|v: u8| v < DECK_SIZE implies s.contains(v) by {
        assert(fd[v as int] == v);
        assert(fd.contains(v));
        assert(fd.to_multiset().contains(v));
        assert(s.to_multiset().contains(v));
    }
}

impl PlayerDeck {
    /// Resets the pool to all 22 card values in a freshly randomized
    /// order and clears the last drawn card.
    pub fn shuffle(&mut self)
        ensures
            final(self).name == old(self).name,
            final(self).cards@.to_multiset() == full_deck().to_multiset(),
            card_seq_wf(final(self).cards@),
            final(self).last_drawn is None,
    {
        let ghost pre_name = self.name;
        self.last_drawn = None;
        self.cards.clear();
        let mut tarot: u8 = 0;
        while tarot < DECK_SIZE
            invariant
                tarot <= DECK_SIZE,
                self.cards@.len() == tarot as int,
                forall|t: int| 0 <= t < tarot as int ==> self.cards@[t] == t as u8,
                self.name == pre_name,
                self.last_drawn is None,
            decreases DECK_SIZE - tarot,
        {
            self.cards.push(tarot);
            tarot += 1;
        }
        assert(self.cards@ =~= full_deck());
        shuffle_cards(&mut self.cards);
        proof {
            lemma_full_deck_permutation(self.cards@);
        }
    }

    /// Removes and returns the last card of the pool, recording it as
    /// the last draw; an empty pool yields `None` and leaves the
    /// record of the last card actually removed untouched.
    pub fn draw(&mut self) -> (r: Option<u8>)
        ensures
            final(self).name == old(self).name,
            old(self).cards@.len() > 0 ==> r == Some(old(self).cards@.last())
                && final(self).cards@ == old(self).cards@.drop_last()
                && final(self).last_drawn == Some(old(self).cards@.last()),
            old(self).cards@.len() == 0 ==> r is None && final(self).cards@ == old(self).cards@
                && final(self).last_drawn == old(self).last_drawn,
    {
        let card = self.cards.pop();
        if card.is_some() {
            self.last_drawn = card;
        }
        card
    }

    /// Read-only accessor for the last card drawn since creation or
    /// the last shuffle.
    pub fn last_drawn_card(&self) -> (r: Option<u8>)
        ensures
            r == self.last_drawn,
    {
        self.last_drawn
    }

    /// Whether the pool has no cards left.
    pub fn is_empty(&self) -> (r: bool)
        ensures
            r == (self.cards@.len() == 0),
    {
        self.cards.len() == 0
    }
}

impl Decks {
    /// Shuffle the deck associated with a player.
    ///
    /// If `player_name` has a deck, its last drawn card is cleared and
    /// the deck is refilled with all 22 card values in a fresh random
    /// order; otherwise nothing changes.
    pub fn shuffle_deck(&mut self, player_name: &String)
        requires
            old(self).wf(),
        ensures
            final(self).wf(),
            final(self).names() == old(self).names(),
            !old(self)@.contains_key(player_name@) ==> final(self)@ == old(self)@,
            old(self)@.contains_key(player_name@) ==> deck_shuffled(
                old(self)@,
                final(self)@,
                player_name@,
            ),
    {
        let idx = self.find_entry(player_name);
        match idx {
            Some(i) => {
                let ghost pre = *self;
                let mut entry = self.entries.remove(i);
                entry.shuffle();
                self.entries.insert(i, entry);
                proof {
                    assert(self.entries@ =~= pre.entries@.update(i as int, entry));
                    Self::lemma_update_view(pre, *self, i as int);
                    assert(deck_shuffled(pre@, self@, player_name@));
                }
            },
            None => (),
        }
    }

    /// Draw a card from a player's deck.
    ///
    /// If `player_name` has a non-empty deck, the last card of the
    /// pool is removed, recorded as the last draw and returned. An
    /// empty deck yields `None` and changes nothing (the record of
    /// the last card actually removed is kept); an unregistered
    /// player yields `None` and changes nothing.
    pub fn get_card(&mut self, player_name: &String) -> (r: Option<u8>)
        requires
            old(self).wf(),
        ensures
            final(self).wf(),
            final(self).names() == old(self).names(),
            !old(self)@.contains_key(player_name@) ==> r is None && final(self)@ == old(self)@,
            old(self)@.contains_key(player_name@) ==> {
                let pre = old(self)@[player_name@];
                if pre.cards.len() > 0 {
                    &&& r == Some(pre.cards.last())
                    &&& final(self)@ == old(self)@.insert(
                        player_name@,
                        DeckView { cards: pre.cards.drop_last(), last_drawn: Some(pre.cards.last()) },
                    )
                } else {
                    &&& r is None
                    &&& final(self)@ == old(self)@
                }
            },
    {
        let idx = self.find_entry(player_name);
        match idx {
            Some(i) => {
                let ghost pre = *self;
                let mut entry = self.entries.remove(i);
                let card = entry.draw();
                self.entries.insert(i, entry);
                proof {
                    assert(self.entries@ =~= pre.entries@.update(i as int, entry));
                    let pc = pre.entries@[i as int].cards@;
                    assert forall|a: int, b: int|
                        0 <= a < b < entry.cards@.len() implies entry.cards@[a]
                        != entry.cards@[b] by {
                        assert(pc[a] == entry.cards@[a] && pc[b] == entry.cards@[b]);
                    }
                    assert(card_seq_wf(entry.cards@));
                    Self::lemma_update_view(pre, *self, i as int);
                    if pc.len() > 0 {
                        assert(entry.cards@ =~= pc.drop_last());
                        assert(self@ =~= pre@.insert(
                            player_name@,
                            DeckView { cards: pc.drop_last(), last_drawn: Some(pc.last()) },
                        ));
                    } else {
                        assert(self@ =~= pre@);
                    }
                }
                card
            },
            None => None,
        }
    }

    /// Recover the last card drawn from a player's deck, or `None` if
    /// the player has no deck or has not drawn since the last shuffle.
    pub fn get_last_drawn(&self, player_name: &String) -> (r: Option<u8>)
        requires
            self.wf(),
        ensures
            r == if self@.contains_key(player_name@) {
                self@[player_name@].last_drawn
            } else {
                None::<u8>
            },
    {
        match self.find_entry(player_name) {
            Some(i) => {
                proof {
                    self.lemma_entry_is_view(i as int);
                }
                self.entries[i].last_drawn
            },
            None => None,
        }
    }

    /// Check if the player is registered and its deck is empty.
    pub fn is_last_card(&self, player_name: &String) -> (r: bool)
        requires
            self.wf(),
        ensures
            r == (self@.contains_key(player_name@) && self@[player_name@].cards.len() == 0),
    {
        match self.find_entry(player_name) {
            Some(i) => {
                proof {
                    self.lemma_entry_is_view(i as int);
                }
                self.entries[i].cards.len() == 0
            },
            None => false,
        }
    }

    /// Retrieve the names of all the players with a deck, in
    /// registration order.
    pub fn get_players(&self) -> (r: Vec<String>)
        requires
            self.wf(),
        ensures
            r@.len() == self.names().len(),
            forall|i: int| 0 <= i < r@.len() ==> r@[i]@ == self.names()[i],
    {
        let mut r: Vec<String> = Vec::new();
        let mut i: usize = 0;
        while i < self.entries.len()
            invariant
                i <= self.entries@.len(),
                r@.len() == i as int,
                forall|j: int| 0 <= j < i as int ==> r@[j]@ == self.names()[j],
            decreases self.entries@.len() - i,
        {
            r.push(self.entries[i].name.clone());
            i += 1;
        }
        r
    }

    /// Insert a new deck for `player_name`.
    ///
    /// If the player is new, a deck is created, shuffled full, and
    /// `InsertOk` is returned; an already-registered player keeps its
    /// deck untouched and `PlayerExists` is returned.
    pub fn insert_deck(&mut self, player_name: &String) -> (r: DeckStatus)
        requires
            old(self).wf(),
        ensures
            final(self).wf(),
            old(self)@.contains_key(player_name@) ==> r == DeckStatus::PlayerExists && final(self)@
                == old(self)@ && final(self).names() == old(self).names(),
            !old(self)@.contains_key(player_name@) ==> r == DeckStatus::InsertOk && deck_inserted(
                old(self)@,
                final(self)@,
                player_name@,
            ) && final(self).names() == old(self).names().push(player_name@),
    {
        if self.has_player(player_name) {
            return DeckStatus::PlayerExists;
        }
        let ghost pre = *self;
        self.entries.push(
            PlayerDeck { name: player_name.clone(), cards: Vec::new(), last_drawn: None },
        );
        let ghost mid = *self;
        proof {
            Self::lemma_push_view(pre, mid);
            mid.lemma_entry_is_view(pre.entries@.len() as int);
        }
        self.shuffle_deck(player_name);
        proof {
            assert(self@.dom() =~= pre@.dom().insert(player_name@));
            assert forall|k2: Seq<char>|
                pre@.contains_key(k2) && k2 != player_name@ implies #[trigger] self@[k2]
                == pre@[k2] by {
                assert(mid@[k2] == pre@[k2]);
            }
            assert(deck_inserted(pre@, self@, player_name@));
            assert(self.names() =~= pre.names().push(player_name@));
        }
        DeckStatus::InsertOk
    }
}

/// Thread-safe wrapper around [`Decks`].
///
/// Shared application state handed to concurrent request handlers must
/// be thread-safe, so the registry travels behind a mutex.
pub struct SharedDecks {
    pub data: std::sync::Mutex<Decks>,
}

#[verifier::external_type_specification]
#[verifier::external_body]
#[verifier::reject_recursive_types(T)]
pub struct ExMutex<T: ?Sized>(std::sync::Mutex<T>);

/// Relies on `std::sync::Mutex::new`: wraps the value in a new,
/// unlocked mutex.
#[verifier::external_body]
fn new_mutex(d: Decks) -> std::sync::Mutex<Decks> {
    std::sync::Mutex::new(d)
}

impl SharedDecks {
    /// Creates a shared registry holding a new empty set of decks.
    pub fn new() -> SharedDecks {
        SharedDecks { data: new_mutex(Decks::new()) }
    }
}

/// Cards drawn one after another from a well-formed deck are pairwise
/// distinct: drawing removes from the end, so the j-th and k-th draws
/// return `cards.reverse()[j]` and `cards.reverse()[k]`, and those
/// never coincide until the deck is exhausted.
pub proof fn lemma_draws_distinct(cards: Seq<u8>, j: int, k: int)
    requires
        card_seq_wf(cards),
        0 <= j < k < cards.len(),
    ensures
        cards.reverse()[j] != cards.reverse()[k],
{
}

/// A shuffle followed by a complete run of draws yields a permutation
/// of the full deck: the k-th draw returns `cards.reverse()[k]` (the
/// last card of what remains), and the whole draw order repeats no
/// card and omits none.
pub proof fn lemma_draw_order(cards: Seq<u8>)
    requires
        cards.to_multiset() == full_deck().to_multiset(),
    ensures
        cards.reverse().len() == DECK_SIZE,
        cards.reverse().to_multiset() == full_deck().to_multiset(),
        card_seq_wf(cards.reverse()),
        forall|v: u8| v < DECK_SIZE ==> cards.reverse().contains(v),
        forall|k: int|
            0 <= k < cards.len() ==> cards.reverse()[k] == cards.take(cards.len() - k).last(),
{
    lemma_full_deck_permutation(cards);
    cards.lemma_reverse_to_multiset();
    lemma_full_deck_permutation(cards.reverse());
}

} // verus!
