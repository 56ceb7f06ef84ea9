//! Publish/subscribe broadcasting of deck actions.
//!
//! Every state-changing action on a deck is published as a [`Message`]
//! to all currently subscribed observers. Each subscriber owns an
//! independent bounded queue; a full queue loses its oldest buffered
//! message rather than blocking the publisher or other subscribers.

use vstd::prelude::*;
use crate::comms::Message;
use crate::comms::MessageView;

verus! {

/// One observer's delivery channel: a bounded queue of pending
/// messages, drained front first.
pub struct Subscriber {
    pub id: u64,
    pub queue: Vec<Message>,
}

/// The broadcast hub: a dynamic set of subscriber queues, each with
/// the same bounded capacity.
pub struct BroadcastHub {
    pub subs: Vec<Subscriber>,
    pub next_id: u64,
    pub capacity: usize,
}

/// A bounded append: the message always enters at the back; if the
/// queue is already full, the oldest buffered message is dropped.
pub open spec fn push_bounded(q: Seq<MessageView>, m: MessageView, cap: nat) -> Seq<MessageView> {
    if q.len() < cap {
        q.push(m)
    } else {
        q.drop_first().push(m)
    }
}

/// What one publish does to the whole hub: every subscriber keeps its
/// channel, and each channel receives the message by bounded append.
pub open spec fn spec_publish(
    h: Map<u64, Seq<MessageView>>,
    m: MessageView,
    cap: nat,
) -> Map<u64, Seq<MessageView>> {
    Map::new(|id: u64| h.contains_key(id), |id: u64| push_bounded(h[id], m, cap))
}

impl BroadcastHub {
    /// The subscriber identifiers, in subscription order.
    pub open spec fn ids(self) -> Seq<u64> {
        self.subs@.map_values(|s: Subscriber| s.id)
    }

    /// Hub invariant: identifiers are unique and below the next fresh
    /// one, and no queue exceeds the capacity.
    pub open spec fn wf(self) -> bool {
        &&& forall|i: int, j: int|
            0 <= i < j < self.subs@.len() ==> self.subs@[i].id != self.subs@[j].id
        &&& forall|i: int| 0 <= i < self.subs@.len() ==> self.subs@[i].id < self.next_id
        &&& forall|i: int|
            0 <= i < self.subs@.len() ==> self.subs@[i].queue@.len() <= self.capacity
        &&& self.capacity >= 1
    }

    /// Index of the subscriber with identifier `id`, meaningful only
    /// when one exists.
    pub open spec fn index_of(self, id: u64) -> int {
        choose|i: int| 0 <= i < self.subs@.len() && self.subs@[i].id == id
    }

    /// The pending messages of the subscriber at index `i`.
    pub open spec fn queue_view(self, i: int) -> Seq<MessageView> {
        self.subs@[i].queue@.map_values(|m: Message| m@)
    }
}

impl View for BroadcastHub {
    type V = Map<u64, Seq<MessageView>>;

    open spec fn view(&self) -> Map<u64, Seq<MessageView>> {
        Map::new(
            |id: u64| self.ids().contains(id),
            |id: u64| self.queue_view(self.index_of(id)),
        )
    }
}

impl BroadcastHub {
    /// Under `wf`, the view at a subscriber's own identifier is that
    /// subscriber's queue.
    pub proof fn lemma_entry_is_view(self, i: int)
        requires
            self.wf(),
            0 <= i < self.subs@.len(),
        ensures
            self@.contains_key(self.subs@[i].id),
            self@[self.subs@[i].id] == self.queue_view(i),
    {
        let id = self.subs@[i].id;
        assert(self.ids()[i] == id);
        assert(self.ids().contains(id));
        let j = self.index_of(id);
        assert(0 <= j < self.subs@.len() && self.subs@[j].id == id);
        if i != j {
            assert(self.subs@[i].id != self.subs@[j].id);
        }
    }

    /// An identifier is in the view exactly when some subscriber
    /// carries it.
    pub proof fn lemma_contains_key(self, id: u64)
        ensures
            self@.contains_key(id) <==> exists|i: int|
                0 <= i < self.subs@.len() && self.subs@[i].id == id,
    {
        if exists|i: int| 0 <= i < self.subs@.len() && self.subs@[i].id == id {
            let i = choose|i: int| 0 <= i < self.subs@.len() && self.subs@[i].id == id;
            assert(self.ids()[i] == id);
        }
        if self.ids().contains(id) {
            let i = choose|i: int| 0 <= i < self.ids().len() && self.ids()[i] == id;
            assert(self.subs@[i].id == id);
        }
    }

    /// Creates a hub with no subscribers and the given per-subscriber
    /// queue capacity.
    pub fn new(capacity: usize) -> (r: BroadcastHub)
        requires
            capacity >= 1,
        ensures
            r.wf(),
            r@ == Map::<u64, Seq<MessageView>>::empty(),
            r.capacity == capacity,
            r.next_id == 0,
    {
        let r = BroadcastHub { subs: Vec::new(), next_id: 0, capacity };
        proof {
            assert(r@ =~= Map::<u64, Seq<MessageView>>::empty());
        }
        r
    }

    /// Finds the index of the subscriber with identifier `id`.
    fn find_sub(&self, id: u64) -> (r: Option<usize>)
        requires
            self.wf(),
        ensures
            match r {
                Some(i) => {
                    &&& i < self.subs@.len()
                    &&& self.subs@[i as int].id == id
                    &&& self@.contains_key(id)
                },
                None => !self@.contains_key(id),
            },
    {
        let mut i: usize = 0;
        while i < self.subs.len()
            invariant
                self.wf(),
                i <= self.subs@.len(),
                forall|j: int| 0 <= j < i ==> self.subs@[j].id != id,
            decreases self.subs@.len() - i,
        {
            if self.subs[i].id == id {
                proof {
                    self.lemma_entry_is_view(i as int);
                }
                return Some(i);
            }
            i += 1;
        }
        proof {
            self.lemma_contains_key(id);
        }
        None
    }

    /// Check whether `id` currently names a live subscription.
    pub fn has_subscriber(&self, id: u64) -> (r: bool)
        requires
            self.wf(),
        ensures
            r == self@.contains_key(id),
    {
        self.find_sub(id).is_some()
    }

    /// Registers a new delivery channel and returns its identifier.
    /// The new channel starts empty; no existing channel is touched.
    pub fn subscribe(&mut self) -> (id: u64)
        requires
            old(self).wf(),
            old(self).next_id < u64::MAX,
        ensures
            final(self).wf(),
            id == old(self).next_id,
            !old(self)@.contains_key(id),
            final(self)@ == old(self)@.insert(id, Seq::<MessageView>::empty()),
            final(self).capacity == old(self).capacity,
            final(self).next_id == old(self).next_id + 1,
    {
        let ghost pre = *self;
        let id = self.next_id;
        self.subs.push(Subscriber { id, queue: Vec::new() });
        self.next_id = self.next_id + 1;
        proof {
            let n = pre.subs@.len() as int;
            pre.lemma_contains_key(id);
            assert(!pre@.contains_key(id));
            assert forall|a: int, b: int|
                0 <= a < b < self.subs@.len() implies self.subs@[a].id != self.subs@[b].id by {
                if b < n {
                    assert(pre.subs@[a].id != pre.subs@[b].id);
                }
            }
            assert forall|id2: u64| #[trigger] self@.dom().contains(id2) == pre@.dom().insert(
                id,
            ).contains(id2) by {
                pre.lemma_contains_key(id2);
                self.lemma_contains_key(id2);
                if pre@.contains_key(id2) {
                    let j = choose|j: int| 0 <= j < pre.subs@.len() && pre.subs@[j].id == id2;
                    assert(self.subs@[j].id == id2);
                }
                if self@.contains_key(id2) {
                    let j = choose|j: int| 0 <= j < self.subs@.len() && self.subs@[j].id == id2;
                    if j < n {
                        assert(pre.subs@[j].id == id2);
                    } else {
                        assert(id2 == id);
                    }
                }
                if id2 == id {
                    assert(self.subs@[n].id == id2);
                }
            }
            assert(self@.dom() =~= pre@.dom().insert(id));
            assert forall|id2: u64|
                pre@.contains_key(id2) implies #[trigger] self@[id2] == pre@[id2] by {
                pre.lemma_contains_key(id2);
                let j = choose|j: int| 0 <= j < pre.subs@.len() && pre.subs@[j].id == id2;
                pre.lemma_entry_is_view(j);
                self.lemma_entry_is_view(j);
                assert(self.queue_view(j) =~= pre.queue_view(j));
            }
            self.lemma_entry_is_view(n);
            assert(self.queue_view(n) =~= Seq::<MessageView>::empty());
            assert(self@ =~= pre@.insert(id, Seq::<MessageView>::empty()));
        }
        id
    }

    /// Delivers `m` to every currently registered subscriber by
    /// bounded append: a lagging subscriber whose queue is full loses
    /// its oldest buffered message, never the publisher its progress.
    pub fn publish(&mut self, m: &Message)
        requires
            old(self).wf(),
        ensures
            final(self).wf(),
            final(self)@ == spec_publish(old(self)@, m@, old(self).capacity as nat),
            final(self).capacity == old(self).capacity,
            final(self).next_id == old(self).next_id,
    {
        let ghost pre = *self;
        let mut i: usize = 0;
        while i < self.subs.len()
            invariant
                pre.wf(),
                i <= self.subs@.len(),
                self.subs@.len() == pre.subs@.len(),
                self.capacity == pre.capacity,
                self.next_id == pre.next_id,
                forall|j: int|
                    0 <= j < pre.subs@.len() ==> #[trigger] self.subs@[j].id == pre.subs@[j].id,
                forall|j: int| i <= j < pre.subs@.len() ==> self.subs@[j] == pre.subs@[j],
                forall|j: int|
                    0 <= j < pre.subs@.len() ==> #[trigger] self.subs@[j].queue@.len()
                        <= pre.capacity,
                forall|j: int|
                    0 <= j < i ==> #[trigger] self.queue_view(j) == push_bounded(
                        pre.queue_view(j),
                        m@,
                        pre.capacity as nat,
                    ),
            decreases self.subs@.len() - i,
        {
            let ghost loop_pre = *self;
            let mut s = self.subs.remove(i);
            if s.queue.len() >= self.capacity {
                s.queue.remove(0);
            }
            s.queue.push(m.clone());
            self.subs.insert(i, s);
            proof {
                assert(self.subs@ =~= loop_pre.subs@.update(i as int, s));
                let oldq = pre.subs@[i as int].queue@;
                let pq = pre.queue_view(i as int);
                assert(pq.len() == oldq.len());
                if oldq.len() < pre.capacity {
                    assert forall|t: int| 0 <= t < s.queue@.len() implies #[trigger] s.queue@[t]@
                        == pq.push(m@)[t] by {
                        if t < oldq.len() {
                            assert(s.queue@[t] == oldq[t]);
                        }
                    }
                    assert(self.queue_view(i as int) =~= pq.push(m@));
                } else {
                    assert(oldq.remove(0) =~= oldq.drop_first());
                    assert forall|t: int| 0 <= t < s.queue@.len() implies #[trigger] s.queue@[t]@
                        == pq.drop_first().push(m@)[t] by {
                        if t < oldq.len() - 1 {
                            assert(s.queue@[t] == oldq[t + 1]);
                            assert(pq.drop_first()[t] == pq[t + 1]);
                        }
                    }
                    assert(self.queue_view(i as int) =~= pq.drop_first().push(m@));
                }
                assert(self.queue_view(i as int) == push_bounded(
                    pq,
                    m@,
                    pre.capacity as nat,
                ));
                assert forall|j: int| 0 <= j < i as int implies #[trigger] self.queue_view(j)
                    == loop_pre.queue_view(j) by {
                    assert(self.subs@[j] == loop_pre.subs@[j]);
                }
            }
            i += 1;
        }
        proof {
            assert forall|id2: u64| #[trigger] self@.dom().contains(id2) == pre@.dom().contains(
                id2,
            ) by {
                pre.lemma_contains_key(id2);
                self.lemma_contains_key(id2);
                if pre@.contains_key(id2) {
                    let j = choose|j: int| 0 <= j < pre.subs@.len() && pre.subs@[j].id == id2;
                    assert(self.subs@[j].id == id2);
                }
                if self@.contains_key(id2) {
                    let j = choose|j: int| 0 <= j < self.subs@.len() && self.subs@[j].id == id2;
                    assert(pre.subs@[j].id == id2);
                }
            }
            assert(self@.dom() =~= pre@.dom());
            assert forall|id2: u64|
                pre@.contains_key(id2) implies #[trigger] self@[id2] == push_bounded(
                pre@[id2],
                m@,
                pre.capacity as nat,
            ) by {
                pre.lemma_contains_key(id2);
                let j = choose|j: int| 0 <= j < pre.subs@.len() && pre.subs@[j].id == id2;
                pre.lemma_entry_is_view(j);
                self.lemma_entry_is_view(j);
            }
            assert(self@ =~= spec_publish(pre@, m@, pre.capacity as nat));
        }
    }

    /// Removes the subscription named `id`, discarding any messages
    /// still enqueued for it; unknown identifiers are ignored, so the
    /// operation is idempotent.
    pub fn unsubscribe(&mut self, id: u64)
        requires
            old(self).wf(),
        ensures
            final(self).wf(),
            final(self)@ == old(self)@.remove(id),
            final(self).capacity == old(self).capacity,
            final(self).next_id == old(self).next_id,
    {
        let ghost pre = *self;
        match self.find_sub(id) {
            Some(i) => {
                self.subs.remove(i);
                proof {
                    assert forall|j: int|
                        0 <= j < self.subs@.len() implies #[trigger] self.subs@[j] == (if j
                        < i as int {
                        pre.subs@[j]
                    } else {
                        pre.subs@[j + 1]
                    }) by {
                        assert(self.subs@ == pre.subs@.remove(i as int));
                    }
                    assert forall|id2: u64| #[trigger] self@.dom().contains(id2) == pre@.dom(
                    ).remove(id).contains(id2) by {
                        pre.lemma_contains_key(id2);
                        self.lemma_contains_key(id2);
                        if pre@.contains_key(id2) && id2 != id {
                            let j = choose|j: int|
                                0 <= j < pre.subs@.len() && pre.subs@[j].id == id2;
                            if j < i as int {
                                assert(self.subs@[j].id == id2);
                            } else {
                                assert(pre.subs@[i as int].id == id);
                                assert(j != i as int);
                                assert(self.subs@[j - 1].id == id2);
                            }
                        }
                        if self@.contains_key(id2) {
                            let j = choose|j: int|
                                0 <= j < self.subs@.len() && self.subs@[j].id == id2;
                            let j2: int = if j < i as int {
                                j
                            } else {
                                j + 1
                            };
                            assert(pre.subs@[j2].id == id2);
                            assert(j2 != i as int);
                            if id2 == id {
                                assert(pre.subs@[i as int].id == id);
                                if j2 < i as int {
                                    assert(pre.subs@[j2].id != pre.subs@[i as int].id);
                                } else {
                                    assert(pre.subs@[i as int].id != pre.subs@[j2].id);
                                }
                            }
                        }
                    }
                    assert(self@.dom() =~= pre@.dom().remove(id));
                    assert forall|id2: u64|
                        self@.contains_key(id2) implies #[trigger] self@[id2] == pre@[id2] by {
                        self.lemma_contains_key(id2);
                        let j = choose|j: int|
                            0 <= j < self.subs@.len() && self.subs@[j].id == id2;
                        self.lemma_entry_is_view(j);
                        if j < i as int {
                            pre.lemma_entry_is_view(j);
                            assert(self.queue_view(j) =~= pre.queue_view(j));
                        } else {
                            pre.lemma_entry_is_view(j + 1);
                            assert(self.queue_view(j) =~= pre.queue_view(j + 1));
                        }
                    }
                    assert(self@ =~= pre@.remove(id));
                }
            },
            None => {
                proof {
                    assert(self@ =~= pre@.remove(id));
                }
            },
        }
    }

    /// Takes the oldest pending message for subscriber `id`, if the
    /// subscription is live and has one; a live empty channel and an
    /// unknown identifier both yield `None` and change nothing.
    pub fn try_recv(&mut self, id: u64) -> (r: Option<Message>)
        requires
            old(self).wf(),
        ensures
            final(self).wf(),
            final(self).capacity == old(self).capacity,
            final(self).next_id == old(self).next_id,
            !old(self)@.contains_key(id) ==> r is None && final(self)@ == old(self)@,
            old(self)@.contains_key(id) && old(self)@[id].len() == 0 ==> r is None && final(self)@
                == old(self)@,
            old(self)@.contains_key(id) && old(self)@[id].len() > 0 ==> {
                &&& r matches Some(msg) && msg@ == old(self)@[id].first()
                &&& final(self)@ == old(self)@.insert(id, old(self)@[id].drop_first())
            },
    {
        let ghost pre = *self;
        match self.find_sub(id) {
            Some(i) => {
                proof {
                    pre.lemma_entry_is_view(i as int);
                }
                if self.subs[i].queue.len() == 0 {
                    proof {
                        assert(pre@[id].len() == 0);
                    }
                    None
                } else {
                    let mut s = self.subs.remove(i);
                    let msg = s.queue.remove(0);
                    self.subs.insert(i, s);
                    proof {
                        assert(self.subs@ =~= pre.subs@.update(i as int, s));
                        assert forall|a: int, b: int|
                            0 <= a < b < self.subs@.len() implies self.subs@[a].id
                            != self.subs@[b].id by {
                            assert(pre.subs@[a].id != pre.subs@[b].id);
                        }
                        assert(self.wf());
                        assert forall|id2: u64| #[trigger] self@.dom().contains(id2) == pre@.dom(
                        ).contains(id2) by {
                            pre.lemma_contains_key(id2);
                            self.lemma_contains_key(id2);
                            if pre@.contains_key(id2) {
                                let j = choose|j: int|
                                    0 <= j < pre.subs@.len() && pre.subs@[j].id == id2;
                                assert(self.subs@[j].id == id2);
                            }
                            if self@.contains_key(id2) {
                                let j = choose|j: int|
                                    0 <= j < self.subs@.len() && self.subs@[j].id == id2;
                                assert(pre.subs@[j].id == id2);
                            }
                        }
                        assert(self@.dom() =~= pre@.dom());
                        assert forall|id2: u64|
                            pre@.contains_key(id2) && id2 != id implies #[trigger] self@[id2]
                            == pre@[id2] by {
                            pre.lemma_contains_key(id2);
                            let j = choose|j: int|
                                0 <= j < pre.subs@.len() && pre.subs@[j].id == id2;
                            assert(j != i as int);
                            pre.lemma_entry_is_view(j);
                            self.lemma_entry_is_view(j);
                            assert(self.queue_view(j) =~= pre.queue_view(j));
                        }
                        self.lemma_entry_is_view(i as int);
                        assert(self.queue_view(i as int) =~= pre.queue_view(i as int).drop_first());
                        assert(msg@ == pre@[id].first());
                        assert(self@ =~= pre@.insert(id, pre@[id].drop_first()));
                    }
                    Some(msg)
                }
            },
            None => None,
        }
    }
}

/// Every subscriber registered at publish time observes the published
/// message: after the publish it is the newest entry of that
/// subscriber's queue.
pub proof fn lemma_publish_delivers(h: Map<u64, Seq<MessageView>>, m: MessageView, cap: nat, id: u64)
    requires
        h.contains_key(id),
        cap >= 1,
    ensures
        spec_publish(h, m, cap).contains_key(id),
        spec_publish(h, m, cap)[id].len() >= 1,
        spec_publish(h, m, cap)[id].last() == m,
{
}

/// For a single player's actions, subscribers observe publishes in the
/// order they were applied: a subscriber whose queue has room for both
/// messages holds them in exactly the published order. (A lagging
/// subscriber with a full queue instead loses its oldest entries.)
pub proof fn lemma_publish_order(
    h: Map<u64, Seq<MessageView>>,
    m1: MessageView,
    m2: MessageView,
    cap: nat,
    id: u64,
)
    requires
        h.contains_key(id),
        h[id].len() + 2 <= cap,
    ensures
        spec_publish(spec_publish(h, m1, cap), m2, cap)[id] == h[id].push(m1).push(m2),
{
}

/// A subscriber that has unsubscribed receives nothing published
/// afterwards: no later publish reintroduces its channel.
pub proof fn lemma_unsubscribed_receives_nothing(
    h: Map<u64, Seq<MessageView>>,
    m: MessageView,
    cap: nat,
    id: u64,
)
    requires
        !h.contains_key(id),
    ensures
        !spec_publish(h, m, cap).contains_key(id),
{
}

} // verus!
