//! What an endpoint sees to again and again: peers that are gone, verdicts of handlers, deliveries
//! that are over, and room for frames that peers want to send.
use crate::auth::{claims_allow, trust_check};
use crate::control::{any_awaited, awaited};
use crate::crypto::{EndpointId, Id};
use crate::deliveries::{
    after_ending, ending_with, is_expiry, Closed, ClosedView, DeliveriesView, DeliveryKey,
    DeliveryKeyView, Ending, Pending, PendingView, RecordKey, RecordKeyView,
};
use crate::endpoint::{Disposition, Metrics, RecipientOutcome};
use crate::error::Error;
use crate::incoming::outcome_told;
use crate::message::Topic;
use crate::octets::same_bytes;
use crate::ordered::{increasing, kept, lemma_mapped, listing, mapped, pairs_map, OrderedMap};
use crate::owner::{
    grace_of, told, valid_time, without_peer, BindingView, Owner, OwnerView, Peer, PeerView,
    Record, RecordState, RecordView, Reply, ReplyView, SubscriptionView,
};
use crate::wire::{Control, ControlView};
use vstd::prelude::*;

verus! {

// The clock

/// How many whole seconds have passed since the endpoint started.
pub open spec fn uptime<H>(v: OwnerView<H>, now: u128) -> nat {
    if now <= v.clock_start.1 {
        0
    } else {
        ((now - v.clock_start.1) / 1_000_000_000) as nat
    }
}

/// Whether the clock shows what it should by the time that has passed, give or take half a minute.
pub open spec fn clock_plausible<H>(v: OwnerView<H>, clock: Option<u64>, now: u128) -> bool {
    let expected = if v.clock_start.0 + uptime(v, now) > u64::MAX {
        u64::MAX as int
    } else {
        v.clock_start.0 + uptime(v, now)
    };
    match clock {
        None => false,
        Some(t) => t - expected <= 30 && expected - t <= 30,
    }
}

/// The state after a look at the clock: once it has failed, it is not believed again.
pub open spec fn after_clock<H>(v: OwnerView<H>, clock: Option<u64>, now: u128) -> OwnerView<H> {
    OwnerView { clock_failed: v.clock_failed || !clock_plausible(v, clock, now), ..v }
}

/// What the clock says, or zero.
pub open spec fn clock_time(clock: Option<u64>) -> u64 {
    match clock {
        Some(t) => t,
        None => 0,
    }
}

/// Why the endpoint itself may not act, if it may not.
pub open spec fn own_error<H>(v: OwnerView<H>, clock: Option<u64>) -> Option<Error> {
    match valid_time(v, clock) {
        Ok(_) => None,
        Err(e) => Some(e),
    }
}

// Peers that are gone

/// Whether a peer must be let go.
pub open spec fn is_stale<H>(
    v: OwnerView<H>,
    id: Seq<u8>,
    p: PeerView<H>,
    clock: Option<u64>,
) -> bool {
    ||| own_error(v, clock) is Some
    ||| trust_check(v.config.trust, p.reg.cert.claims, id, clock_time(clock)) is Err
    ||| p.lost
}

/// The peers on a list that must be let go.
pub open spec fn stale_peers<H>(
    v: OwnerView<H>,
    s: Seq<(Seq<u8>, PeerView<H>)>,
    clock: Option<u64>,
) -> Seq<Seq<u8>>
    decreases s.len(),
{
    if s.len() == 0 {
        Seq::empty()
    } else {
        let before = stale_peers(v, s.drop_last(), clock);
        if is_stale(v, s.last().0, s.last().1, clock) {
            before.push(s.last().0)
        } else {
            before
        }
    }
}

/// The state after the peers on a list are let go.
pub open spec fn without_peers<H>(v: OwnerView<H>, ids: Seq<Seq<u8>>, now: u128) -> OwnerView<H>
    decreases ids.len(),
{
    if ids.len() == 0 {
        v
    } else {
        without_peer(without_peers(v, ids.drop_last(), now), ids.last(), now)
    }
}

/// The state after all peers are let go that must be.
pub open spec fn without_stale<H>(v: OwnerView<H>, clock: Option<u64>, now: u128) -> OwnerView<H> {
    without_peers(v, stale_peers(v, listing::<EndpointId, PeerView<H>>(v.peers), clock), now)
}

/// The views of a list of peers.
pub open spec fn id_list(s: Seq<EndpointId>) -> Seq<Seq<u8>> {
    Seq::new(s.len(), |i: int| s[i]@)
}

impl<H> Owner<H> {
    fn look_at_clock(&mut self, clock: Option<u64>, now: u128)
        ensures
            final(self)@ == after_clock(old(self)@, clock, now),
    {
        let elapsed: u128 = if now <= self.clock_start.1 {
            0
        } else {
            (now - self.clock_start.1) / 1_000_000_000
        };
        let expected: u128 = self.clock_start.0 as u128 + elapsed;
        let ceiling: u128 = u64::MAX as u128;
        let expected: u128 = if expected > ceiling {
            ceiling
        } else {
            expected
        };
        match clock {
            None => {
                self.clock_failed = true;
            },
            Some(t) => {
                let t: u128 = t as u128;
                if t > expected + 30 || expected > t + 30 {
                    self.clock_failed = true;
                }
            },
        }
    }

    fn local_error(&self, clock: Option<u64>) -> (e: Option<Error>)
        ensures
            e == own_error(self@, clock),
    {
        match self.local_valid(clock) {
            Ok(_) => None,
            Err(e) => Some(e),
        }
    }

    fn find_stale(&self, clock: Option<u64>) -> (ids: Vec<EndpointId>)
        ensures
            id_list(ids@) == stale_peers(
                self@,
                listing::<EndpointId, PeerView<H>>(self@.peers),
                clock,
            ),
    {
        let failed = self.local_valid(clock).is_err();
        let t: u64 = match clock {
            Some(t) => t,
            None => 0,
        };
        let mut ids: Vec<EndpointId> = Vec::new();
        let ghost all = self.peers.pairs();
        proof {
            use_type_invariant(&self.peers);
            self.peers.lemma_pairs();
            assert(all.take(0) =~= Seq::empty());
            assert(id_list(ids@) =~= Seq::empty());
        }
        let mut i: usize = 0;
        while i < self.peers.len()
            invariant
                i <= self.peers.pairs().len(),
                all == self.peers.pairs(),
                failed == (own_error(self@, clock) is Some),
                t == clock_time(clock),
                id_list(ids@) == stale_peers(self@, all.take(i as int), clock),
            decreases all.len() - i,
        {
            let id = self.peers.key_at(i);
            let p = self.peers.value_at(i);
            let ghost before = ids@;
            proof {
                let next = all.take(i + 1);
                assert(next.drop_last() =~= all.take(i as int));
                assert(next.last() == all[i as int]);
            }
            if failed || self.config.trust.check(&p.reg.cert, *id, t).is_err() || p.lost {
                ids.push(*id);
                assert(id_list(ids@) =~= id_list(before).push(id@));
            }
            i = i + 1;
        }
        assert(all.take(i as int) =~= all);
        ids
    }

    /// Lets the peers on a list go.
    pub(crate) fn remove_peers(&mut self, ids: &Vec<EndpointId>, now: u128)
        ensures
            final(self)@ == without_peers(old(self)@, id_list(ids@), now),
    {
        let ghost start = self@;
        let ghost all = id_list(ids@);
        assert(all.take(0) =~= Seq::empty());
        let mut i: usize = 0;
        while i < ids.len()
            invariant
                i <= ids@.len(),
                all == id_list(ids@),
                self@ == without_peers(start, all.take(i as int), now),
            decreases ids@.len() - i,
        {
            self.remove_peer(&ids[i], now);
            proof {
                let next = all.take(i + 1);
                assert(next.drop_last() =~= all.take(i as int));
                assert(next.last() == all[i as int]);
            }
            i = i + 1;
        }
        assert(all.take(i as int) =~= all);
    }

    /// Notes that the connection of a session is gone.
    pub fn note_lost(&mut self, peer: &EndpointId)
        ensures
            final(self)@ == if old(self)@.peers.contains_key(peer@) {
                OwnerView {
                    peers: old(self)@.peers.insert(
                        peer@,
                        PeerView { lost: true, ..old(self)@.peers[peer@] },
                    ),
                    ..old(self)@
                }
            } else {
                old(self)@
            },
            final(self)@ == with_lost(old(self)@, peer@),
    {
        if let Some(p) = self.peers.get_mut(peer) {
            p.lost = true;
        }
    }
}

// Subscriptions that the application has let go of

/// The endpoint once it knows that the connection of a peer is gone.
pub open spec fn with_lost<H>(v: OwnerView<H>, peer: Seq<u8>) -> OwnerView<H> {
    if v.peers.contains_key(peer) {
        OwnerView {
            peers: v.peers.insert(peer, PeerView { lost: true, ..v.peers[peer] }),
            ..v
        }
    } else {
        v
    }
}

/// The endpoint once it knows that the application has let go of a subscription.
pub open spec fn with_closed<H>(v: OwnerView<H>, topic: Seq<char>) -> OwnerView<H> {
    if v.subscriptions.contains_key(topic) {
        OwnerView {
            subscriptions: v.subscriptions.insert(
                topic,
                SubscriptionView { closed: true, ..v.subscriptions[topic] },
            ),
            ..v
        }
    } else {
        v
    }
}

/// The topics on a list whose subscriptions are closed.
pub open spec fn closed_topics<H>(s: Seq<(Seq<char>, SubscriptionView<H>)>) -> Seq<Seq<char>>
    decreases s.len(),
{
    if s.len() == 0 {
        Seq::empty()
    } else if s.last().1.closed {
        closed_topics(s.drop_last()).push(s.last().0)
    } else {
        closed_topics(s.drop_last())
    }
}

/// Peers that are told that a subscription is given up.
pub open spec fn peers_unsubscribed<H>(
    m: Map<Seq<u8>, PeerView<H>>,
    topic: Seq<char>,
    sub: Seq<u8>,
) -> Map<Seq<u8>, PeerView<H>> {
    mapped(
        m,
        |id: Seq<u8>, p: PeerView<H>|
            told(
                PeerView { inbound: p.inbound.remove(topic), ..p },
                ControlView::Unsubscribe { topic, sub },
            ),
    )
}

/// The state after a subscription is given up.
pub open spec fn without_subscription<H>(v: OwnerView<H>, topic: Seq<char>) -> OwnerView<H> {
    if v.subscriptions.contains_key(topic) {
        OwnerView {
            subscriptions: v.subscriptions.remove(topic),
            peers: peers_unsubscribed(v.peers, topic, v.subscriptions[topic].id),
            ..v
        }
    } else {
        v
    }
}

/// The state after the subscriptions on a list are given up.
pub open spec fn without_subscriptions<H>(v: OwnerView<H>, topics: Seq<Seq<char>>) -> OwnerView<H>
    decreases topics.len(),
{
    if topics.len() == 0 {
        v
    } else {
        without_subscription(without_subscriptions(v, topics.drop_last()), topics.last())
    }
}

/// The state after all closed subscriptions are given up.
pub open spec fn without_closed<H>(v: OwnerView<H>) -> OwnerView<H> {
    without_subscriptions(
        v,
        closed_topics(listing::<Topic, SubscriptionView<H>>(v.subscriptions)),
    )
}

/// The views of a list of topics.
pub open spec fn topic_list(s: Seq<Topic>) -> Seq<Seq<char>> {
    Seq::new(s.len(), |i: int| s[i]@)
}

impl<H> Owner<H> {
    fn find_closed(&self) -> (topics: Vec<Topic>)
        ensures
            topic_list(topics@) == closed_topics(
                listing::<Topic, SubscriptionView<H>>(self@.subscriptions),
            ),
    {
        let mut topics: Vec<Topic> = Vec::new();
        let ghost all = self.subscriptions.pairs();
        proof {
            use_type_invariant(&self.subscriptions);
            self.subscriptions.lemma_pairs();
            assert(all.take(0) =~= Seq::empty());
            assert(topic_list(topics@) =~= Seq::empty());
        }
        let mut i: usize = 0;
        while i < self.subscriptions.len()
            invariant
                i <= self.subscriptions.pairs().len(),
                all == self.subscriptions.pairs(),
                topic_list(topics@) == closed_topics(all.take(i as int)),
            decreases all.len() - i,
        {
            let ghost before = topics@;
            proof {
                let next = all.take(i + 1);
                assert(next.drop_last() =~= all.take(i as int));
                assert(next.last() == all[i as int]);
            }
            if self.subscriptions.value_at(i).closed {
                let topic = self.subscriptions.key_at(i).clone();
                topics.push(topic);
                assert(topic_list(topics@) =~= topic_list(before).push(topic@));
            }
            i = i + 1;
        }
        assert(all.take(i as int) =~= all);
        topics
    }

    fn unsubscribe_peers(&mut self, topic: &Topic, sub: &Id)
        ensures
            final(self)@ == (OwnerView {
                peers: peers_unsubscribed(old(self)@.peers, topic@, sub@),
                ..old(self)@
            }),
    {
        let ghost f = |id: Seq<u8>, p: PeerView<H>|
            told(
                PeerView { inbound: p.inbound.remove(topic@), ..p },
                ControlView::Unsubscribe { topic: topic@, sub: sub@ },
            );
        let ghost pairs = self.peers.pairs();
        let ghost start = self@;
        let mut i: usize = 0;
        proof {
            use_type_invariant(&self.peers);
            self.peers.lemma_pairs();
        }
        while i < self.peers.len()
            invariant
                i <= self.peers.pairs().len(),
                f == (|id: Seq<u8>, p: PeerView<H>|
                    told(
                        PeerView { inbound: p.inbound.remove(topic@), ..p },
                        ControlView::Unsubscribe { topic: topic@, sub: sub@ },
                    )),
                pairs.len() == self.peers.pairs().len(),
                forall|j: int|
                    0 <= j < i ==> #[trigger] self.peers.pairs()[j] == (
                        pairs[j].0,
                        f(pairs[j].0, pairs[j].1),
                    ),
                forall|j: int|
                    i <= j < pairs.len() ==> #[trigger] self.peers.pairs()[j] == pairs[j],
                self@ == (OwnerView { peers: self.peers@, ..start }),
            decreases pairs.len() - i,
        {
            let p = self.peers.value_mut(i);
            p.inbound.remove(topic);
            p.tell(Control::Unsubscribe { topic: topic.clone(), sub: *sub });
            i = i + 1;
        }
        proof {
            use_type_invariant(&self.peers);
            self.peers.lemma_pairs();
            lemma_mapped::<EndpointId, PeerView<H>, PeerView<H>>(pairs, self.peers.pairs(), f);
        }
    }

    /// Gives a subscription up, and tells every peer.
    pub fn unsubscribe(&mut self, topic: &Topic)
        ensures
            final(self)@ == without_subscription(old(self)@, topic@),
    {
        if let Some(s) = self.subscriptions.remove(topic) {
            self.unsubscribe_peers(topic, &s.id);
        }
    }

    fn remove_closed(&mut self)
        ensures
            final(self)@ == without_closed(old(self)@),
    {
        let topics = self.find_closed();
        let ghost start = self@;
        let ghost all = topic_list(topics@);
        assert(all.take(0) =~= Seq::empty());
        let mut i: usize = 0;
        while i < topics.len()
            invariant
                i <= topics@.len(),
                all == topic_list(topics@),
                self@ == without_subscriptions(start, all.take(i as int)),
            decreases topics@.len() - i,
        {
            self.unsubscribe(&topics[i]);
            proof {
                let next = all.take(i + 1);
                assert(next.drop_last() =~= all.take(i as int));
                assert(next.last() == all[i as int]);
            }
            i = i + 1;
        }
        assert(all.take(i as int) =~= all);
    }

    /// Notes that the application has let go of a subscription.
    pub fn note_closed(&mut self, topic: &Topic)
        ensures
            final(self)@ == if old(self)@.subscriptions.contains_key(topic@) {
                OwnerView {
                    subscriptions: old(self)@.subscriptions.insert(
                        topic@,
                        SubscriptionView {
                            closed: true,
                            ..old(self)@.subscriptions[topic@]
                        },
                    ),
                    ..old(self)@
                }
            } else {
                old(self)@
            },
            final(self)@ == with_closed(old(self)@, topic@),
    {
        if let Some(s) = self.subscriptions.get_mut(topic) {
            s.closed = true;
        }
    }
}

// Verdicts of handlers

/// What becomes of a message that a handler has: what is known of it then, what the handler is
/// told, and what the publisher is told, if anything. `error` is why the endpoint may not act, if
/// it may not.
pub open spec fn verdict<H>(r: RecordView<H>, t: u64, error: Option<Error>) -> Option<
    (RecordState, Result<(), Error>, Option<u64>),
> {
    match r.state {
        RecordState::Processing(said) => match error {
            Some(e) => Some((RecordState::Permanent, Err(e), None)),
            None => if t >= r.expires {
                Some((RecordState::Permanent, Err(Error::DeliveryExpired), None))
            } else {
                match said {
                    Disposition::Open => None,
                    Disposition::Processed => Some((RecordState::Processed, Ok(()), Some(0))),
                    Disposition::Retryable => Some((RecordState::Retryable, Ok(()), Some(1))),
                    Disposition::Permanent => Some((RecordState::Permanent, Ok(()), Some(2))),
                }
            },
        },
        _ => None,
    }
}

/// The state after one message that came in is looked at.
pub open spec fn judged_one<H>(
    v: OwnerView<H>,
    key: RecordKeyView,
    t: u64,
    error: Option<Error>,
) -> OwnerView<H> {
    match verdict(v.records[key], t, error) {
        None => v,
        Some((state, reply, code)) => {
            let w = OwnerView {
                records: v.records.insert(
                    key,
                    RecordView { state, waiter: None, ..v.records[key] },
                ),
                replies: v.replies.insert(
                    key,
                    ReplyView { result: reply, waiter: v.records[key].waiter },
                ),
                ..v
            };
            match code {
                Some(code) => outcome_told(
                    w,
                    key.id.publisher_endpoint_id,
                    key.sub,
                    key.id,
                    code,
                ),
                None => w,
            }
        },
    }
}

/// All messages that came in and are remembered, in order.
pub open spec fn record_list<H>(
    m: Map<RecordKeyView, RecordView<H>>,
) -> Seq<(RecordKeyView, RecordView<H>)> {
    listing::<RecordKey, RecordView<H>>(m)
}

/// The state after the first `n` messages that came in are looked at.
pub open spec fn judged_upto<H>(
    v: OwnerView<H>,
    n: nat,
    t: u64,
    error: Option<Error>,
) -> OwnerView<H>
    decreases n,
{
    if n == 0 {
        v
    } else {
        judged_one(
            judged_upto(v, (n - 1) as nat, t, error),
            record_list(v.records)[n - 1].0,
            t,
            error,
        )
    }
}

/// The state after all messages that came in are looked at.
pub open spec fn judged<H>(v: OwnerView<H>, t: u64, error: Option<Error>) -> OwnerView<H> {
    judged_upto(v, record_list(v.records).len(), t, error)
}

/// The state after what has expired is forgotten.
pub open spec fn forgotten<H>(v: OwnerView<H>, t: u64) -> OwnerView<H> {
    OwnerView {
        records: kept(v.records, |k: RecordKeyView, r: RecordView<H>| t < r.expires),
        deliveries: DeliveriesView {
            closed: kept(
                v.deliveries.closed,
                |k: DeliveryKeyView, c: ClosedView<H>| t < c.expires,
            ),
            ..v.deliveries
        },
        ..v
    }
}

impl<H> Owner<H> {
    /// Looks at the `i`-th message that came in.
    fn judge_at(&mut self, i: usize, t: u64, error: &Option<Error>)
        requires
            i < old(self).records.pairs().len(),
        ensures
            final(self)@ == judged_one(
                old(self)@,
                old(self).records.pairs()[i as int].0,
                t,
                *error,
            ),
            final(self).records.pairs().len() == old(self).records.pairs().len(),
            forall|j: int|
                0 <= j < old(self).records.pairs().len() ==> (
                #[trigger] final(self).records.pairs()[j]).0 == old(self).records.pairs()[j].0,
    {
        proof {
            use_type_invariant(&self.records);
            self.records.lemma_pairs();
        }
        let key = self.records.key_at(i).clone();
        let r = self.records.value_at(i);
        let expires = r.expires;
        let said = match r.state {
            RecordState::Processing(said) => said,
            _ => {
                return;
            },
        };
        let (state, reply, code): (RecordState, Result<(), Error>, Option<u64>) = match error {
            Some(e) => (RecordState::Permanent, Err(e.clone()), None),
            None => {
                if t >= expires {
                    (RecordState::Permanent, Err(Error::DeliveryExpired), None)
                } else {
                    match said {
                        Disposition::Open => {
                            return;
                        },
                        Disposition::Processed => (RecordState::Processed, Ok(()), Some(0)),
                        Disposition::Retryable => (RecordState::Retryable, Ok(()), Some(1)),
                        Disposition::Permanent => (RecordState::Permanent, Ok(()), Some(2)),
                    }
                }
            },
        };
        let r = self.records.value_mut(i);
        r.state = state;
        let waiter = r.waiter.take();
        self.replies.insert(key.clone(), Reply { result: reply, waiter });
        proof {
            use_type_invariant(&self.records);
            self.records.lemma_pairs();
        }
        if let Some(code) = code {
            self.tell_outcome(&key.id.publisher_endpoint_id, &key.sub, &key.id, code);
        }
        proof {
            use_type_invariant(&self.records);
            self.records.lemma_pairs();
        }
    }

    fn judge(&mut self, t: u64, error: &Option<Error>)
        ensures
            final(self)@ == judged(old(self)@, t, *error),
    {
        let ghost start = self@;
        let ghost pairs = self.records.pairs();
        let mut i: usize = 0;
        proof {
            use_type_invariant(&self.records);
            self.records.lemma_pairs();
        }
        while i < self.records.len()
            invariant
                i <= self.records.pairs().len(),
                start == old(self)@,
                pairs == record_list(start.records),
                self.records.pairs().len() == pairs.len(),
                forall|j: int|
                    0 <= j < pairs.len() ==> (#[trigger] self.records.pairs()[j]).0 == pairs[j].0,
                self@ == judged_upto(start, i as nat, t, *error),
            decreases pairs.len() - i,
        {
            self.judge_at(i, t, error);
            i = i + 1;
        }
    }

    fn forget(&mut self, t: u64)
        ensures
            final(self)@ == forgotten(old(self)@, t),
    {
        let keep_record = |k: &RecordKey, r: &Record<H>| -> (b: bool)
            ensures
                b == (t < r@.expires),
            { t < r.expires };
        self.records.retain(keep_record, Ghost(|k: RecordKeyView, r: RecordView<H>| t < r.expires));
        let keep_closed = |k: &DeliveryKey, c: &Closed<H>| -> (b: bool)
            ensures
                b == (t < c@.expires),
            { t < c.expires };
        self.deliveries.closed.retain(
            keep_closed,
            Ghost(|k: DeliveryKeyView, c: ClosedView<H>| t < c.expires),
        );
    }
}

// Deliveries that are over

/// Why a delivery cannot go on, if it cannot. `error` is why the endpoint may not act, if it may
/// not.
pub open spec fn delivery_error<H>(
    v: OwnerView<H>,
    k: DeliveryKeyView,
    p: PendingView<H>,
    error: Option<Error>,
    t: u64,
    now: u128,
) -> Option<Error> {
    if error is Some {
        error
    } else if !claims_allow(v.cert.claims, k.id.topic, true) {
        Some(Error::Unauthorized)
    } else if p.deadline <= now || t >= p.envelope.expires {
        Some(Error::DeliveryExpired)
    } else {
        match trust_check(v.config.trust, p.recipient.claims, k.peer, t) {
            Err(e) => Some(e),
            Ok(_) => if !claims_allow(p.recipient.claims, k.id.topic, false) {
                Some(Error::Unauthorized)
            } else if !v.peers.contains_key(k.peer) {
                None
            } else {
                let peer = v.peers[k.peer];
                if !claims_allow(peer.reg.cert.claims, k.id.topic, false) {
                    Some(Error::Unauthorized)
                } else if peer.outbound.contains_key(k.id.topic) && (peer.outbound[k.id.topic].sub
                    != k.sub || peer.outbound[k.id.topic].mode != p.envelope.mode) {
                    Some(Error::SubscriptionClosed)
                } else {
                    None
                }
            },
        }
    }
}

/// What ends the deliveries that cannot go on.
pub open spec fn ending_failed<H>(
    v: OwnerView<H>,
    error: Option<Error>,
    t: u64,
    now: u128,
) -> Ending<H> {
    |k: DeliveryKeyView, p: PendingView<H>|
        match delivery_error(v, k, p, error, t, now) {
            Some(e) => Some(RecipientOutcome::Failed(e)),
            None => None,
        }
}

/// `n` more than `a`, in a count that starts again when it is full.
pub open spec fn count_on(a: u64, n: nat) -> u64 {
    ((a + n) % 0x1_0000_0000_0000_0000) as u64
}

/// The state after the deliveries that cannot go on have ended.
pub open spec fn after_failures<H>(
    v: OwnerView<H>,
    error: Option<Error>,
    t: u64,
    now: u128,
) -> OwnerView<H> {
    let ending = ending_failed(v, error, t, now);
    OwnerView {
        deliveries: after_ending(v.deliveries, ending, grace_of(v.config)),
        stats: Metrics {
            expired: count_on(
                v.stats.expired,
                ending_with(v.deliveries, ending, is_expiry()).len(),
            ),
            ..v.stats
        },
        ..v
    }
}

impl<H> Owner<H> {
    fn end_failures(&mut self, error: &Option<Error>, t: u64, now: u128)
        ensures
            final(self)@ == after_failures(old(self)@, *error, t, now),
    {
        let grace = self.grace();
        let v: Ghost<OwnerView<H>> = Ghost(self@);
        let peers = &self.peers;
        let cert = &self.cert;
        let trust = &self.config.trust;
        let judge = |k: &DeliveryKey, p: &Pending<H>| -> (o: Option<RecipientOutcome>)
            ensures
                o == ending_failed(v@, *error, t, now)(k@, p@),
            {
                if let Some(e) = error {
                    return Some(RecipientOutcome::Failed(e.clone()));
                }
                let topic = &k.id.topic;
                if !cert.allows(topic, true) {
                    return Some(RecipientOutcome::Failed(Error::Unauthorized));
                }
                if p.deadline <= now || t >= p.envelope.expires {
                    return Some(RecipientOutcome::Failed(Error::DeliveryExpired));
                }
                if let Err(e) = trust.check(&p.recipient, k.peer, t) {
                    return Some(RecipientOutcome::Failed(e));
                }
                if !p.recipient.allows(topic, false) {
                    return Some(RecipientOutcome::Failed(Error::Unauthorized));
                }
                match peers.get(&k.peer) {
                    None => None,
                    Some(peer) => {
                        if !peer.reg.cert.allows(topic, false) {
                            return Some(RecipientOutcome::Failed(Error::Unauthorized));
                        }
                        match peer.outbound.get(topic) {
                            Some(b) => {
                                if !same_bytes(&b.sub, &k.sub) || b.mode != p.envelope.mode {
                                    Some(RecipientOutcome::Failed(Error::SubscriptionClosed))
                                } else {
                                    None
                                }
                            },
                            None => None,
                        }
                    },
                }
            };
        let expired: usize = self.deliveries.end_each(
            judge,
            grace,
            Ghost(ending_failed(v@, *error, t, now)),
        );
        let total: u128 = self.stats.expired as u128 + expired as u128;
        self.stats.expired = (total % 0x1_0000_0000_0000_0000) as u64;
    }
}

// Room that is not needed

/// The way to a subscription once room is given back that no delivery needs.
pub open spec fn relieved<H>(
    b: BindingView<H>,
    pending: Map<DeliveryKeyView, PendingView<H>>,
    peer: Seq<u8>,
    topic: Seq<char>,
) -> BindingView<H> {
    if b.credit is Some && !awaited(pending, peer, b.sub, topic) {
        BindingView { credit: None, ..b }
    } else {
        b
    }
}

/// What a peer is told of room that is given back, for the subscriptions on a list.
pub open spec fn returned<H>(
    s: Seq<(Seq<char>, BindingView<H>)>,
    pending: Map<DeliveryKeyView, PendingView<H>>,
    peer: Seq<u8>,
) -> Seq<ControlView>
    decreases s.len(),
{
    if s.len() == 0 {
        Seq::empty()
    } else {
        let before = returned(s.drop_last(), pending, peer);
        let (topic, b) = s.last();
        if b.credit is Some && !awaited(pending, peer, b.sub, topic) {
            before.push(ControlView::RequestCredit { topic, sub: b.sub, bytes: 0 })
        } else {
            before
        }
    }
}

/// A peer once room is given back that no delivery needs.
pub open spec fn peer_relieved<H>(
    p: PeerView<H>,
    pending: Map<DeliveryKeyView, PendingView<H>>,
    peer: Seq<u8>,
) -> PeerView<H> {
    PeerView {
        outbound: mapped(
            p.outbound,
            |topic: Seq<char>, b: BindingView<H>| relieved(b, pending, peer, topic),
        ),
        outbox: p.outbox + returned(listing::<Topic, BindingView<H>>(p.outbound), pending, peer),
        ..p
    }
}

/// The state once room is given back that no delivery needs.
pub open spec fn credits_returned<H>(v: OwnerView<H>) -> OwnerView<H> {
    OwnerView {
        peers: mapped(
            v.peers,
            |id: Seq<u8>, p: PeerView<H>| peer_relieved(p, v.deliveries.pending, id),
        ),
        ..v
    }
}

/// Gives back the room that a peer has granted and that no delivery needs.
fn return_credit<H>(p: &mut Peer<H>, pending: &OrderedMap<DeliveryKey, Pending<H>>, id: &EndpointId)
    ensures
        final(p)@ == peer_relieved(old(p)@, pending@, id@),
{
    let ghost start = p@;
    let ghost all = p.outbound.pairs();
    let ghost f = |topic: Seq<char>, b: BindingView<H>| relieved(b, pending@, id@, topic);
    proof {
        use_type_invariant(&p.outbound);
        p.outbound.lemma_pairs();
        assert(all.take(0) =~= Seq::empty());
        assert(p@.outbox =~= start.outbox + returned(all.take(0), pending@, id@));
    }
    let mut i: usize = 0;
    while i < p.outbound.len()
        invariant
            i <= p.outbound.pairs().len(),
            all == listing::<Topic, BindingView<H>>(start.outbound),
            increasing::<Topic, BindingView<H>>(all),
            pairs_map(all) == start.outbound,
            p.outbound.pairs().len() == all.len(),
            f == (|topic: Seq<char>, b: BindingView<H>| relieved(b, pending@, id@, topic)),
            forall|j: int|
                0 <= j < i ==> #[trigger] p.outbound.pairs()[j] == (
                    all[j].0,
                    f(all[j].0, all[j].1),
                ),
            forall|j: int| i <= j < all.len() ==> #[trigger] p.outbound.pairs()[j] == all[j],
            p@ == (PeerView {
                outbound: p.outbound@,
                outbox: start.outbox + returned(all.take(i as int), pending@, id@),
                ..start
            }),
        decreases all.len() - i,
    {
        let topic = p.outbound.key_at(i).clone();
        let sub = p.outbound.value_at(i).sub;
        let idle = p.outbound.value_at(i).credit.is_some() && !any_awaited(
            pending,
            id,
            &sub,
            &topic,
        );
        let ghost before = p@;
        proof {
            let next = all.take(i + 1);
            assert(next.drop_last() =~= all.take(i as int));
            assert(next.last() == all[i as int]);
        }
        if idle {
            let b = p.outbound.value_mut(i);
            b.credit = None;
            p.tell(Control::RequestCredit { topic, sub, bytes: 0 });
            assert(p@.outbox =~= start.outbox + returned(all.take(i + 1), pending@, id@));
        }
        i = i + 1;
    }
    proof {
        use_type_invariant(&p.outbound);
        p.outbound.lemma_pairs();
        assert(all.take(i as int) =~= all);
        lemma_mapped::<Topic, BindingView<H>, BindingView<H>>(all, p.outbound.pairs(), f);
    }
}

impl<H> Owner<H> {
    fn return_credits(&mut self)
        ensures
            final(self)@ == credits_returned(old(self)@),
    {
        let ghost pending = self.deliveries.pending@;
        let ghost f = |id: Seq<u8>, p: PeerView<H>| peer_relieved(p, pending, id);
        let ghost pairs = self.peers.pairs();
        let ghost start = self@;
        let mut i: usize = 0;
        proof {
            use_type_invariant(&self.peers);
            self.peers.lemma_pairs();
        }
        while i < self.peers.len()
            invariant
                i <= self.peers.pairs().len(),
                f == (|id: Seq<u8>, p: PeerView<H>| peer_relieved(p, pending, id)),
                pending == self.deliveries.pending@,
                pairs.len() == self.peers.pairs().len(),
                forall|j: int|
                    0 <= j < i ==> #[trigger] self.peers.pairs()[j] == (
                        pairs[j].0,
                        f(pairs[j].0, pairs[j].1),
                    ),
                forall|j: int|
                    i <= j < pairs.len() ==> #[trigger] self.peers.pairs()[j] == pairs[j],
                self@ == (OwnerView { peers: self.peers@, ..start }),
            decreases pairs.len() - i,
        {
            let id = *self.peers.key_at(i);
            let p = self.peers.value_mut(i);
            return_credit(p, &self.deliveries.pending, &id);
            i = i + 1;
        }
        proof {
            use_type_invariant(&self.peers);
            self.peers.lemma_pairs();
            lemma_mapped::<EndpointId, PeerView<H>, PeerView<H>>(pairs, self.peers.pairs(), f);
        }
    }
}

// All of it

/// The state after everything is seen to that does not need room.
pub open spec fn tidied<H>(v: OwnerView<H>, clock: Option<u64>, now: u128) -> OwnerView<H> {
    let t = clock_time(clock);
    let v1 = after_clock(v, clock, now);
    let error = own_error(v1, clock);
    let v2 = without_closed(without_stale(v1, clock, now));
    let v3 = forgotten(judged(v2, t, error), t);
    credits_returned(after_failures(v3, error, t, now))
}

impl<H> Owner<H> {
    /// Sees to everything that does not need room: the clock, peers that are gone, subscriptions
    /// that are closed, verdicts of handlers, what has expired, deliveries that cannot go on, and
    /// room that is not needed.
    pub fn tidy(&mut self, clock: Option<u64>, now: u128)
        ensures
            final(self)@ == tidied(old(self)@, clock, now),
    {
        let t: u64 = match clock {
            Some(t) => t,
            None => 0,
        };
        self.look_at_clock(clock, now);
        let error = self.local_error(clock);
        let stale = self.find_stale(clock);
        self.remove_peers(&stale, now);
        self.remove_closed();
        self.judge(t, &error);
        self.forget(t);
        self.end_failures(&error, t, now);
        self.return_credits();
    }
}

} // verus!
