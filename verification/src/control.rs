//! What an endpoint makes of the control records of its peers.
use crate::auth::claims_allow;
use crate::crypto::{EndpointId, Id};
use crate::deliveries::{
    after_ending, ending_one, DeliveriesView, DeliveryKey, DeliveryKeyView, Ending, Pending,
    PendingView,
};
use crate::endpoint::{Metrics, RecipientOutcome, FRAME_OVERHEAD, LAST_MOMENT};
use crate::error::Error;
use crate::message::{DeliveryMode, MessageId, MessageIdView, Topic};
use crate::octets::same_bytes;
use crate::ordered::OrderedMap;
use crate::owner::{
    grace_of, own_id, subscriptions_used_up, told, valid_peer, without_peer, Answer, Binding,
    BindingView, Owner, OwnerView, PeerView, SessionView, SubscriptionView,
};
use crate::wire::{Control, ControlView};
use vstd::prelude::*;

verus! {

/// What comes of a control record: the state after it, and whether the record was in order.
pub type Effect<H> = (OwnerView<H>, Result<(), Error>);

/// The state with one peer changed.
pub open spec fn with_peer<H>(v: OwnerView<H>, peer: Seq<u8>, p: PeerView<H>) -> OwnerView<H> {
    OwnerView { peers: v.peers.insert(peer, p), ..v }
}

/// The state with one subscription changed.
pub open spec fn with_local<H>(
    v: OwnerView<H>,
    topic: Seq<char>,
    s: SubscriptionView<H>,
) -> OwnerView<H> {
    OwnerView { subscriptions: v.subscriptions.insert(topic, s), ..v }
}

/// One more than `n`; a count that is full starts again.
pub open spec fn next_count(n: u64) -> u64 {
    if n == u64::MAX {
        0
    } else {
        (n + 1) as u64
    }
}

pub fn count_up(n: u64) -> (m: u64)
    ensures
        m == next_count(n),
{
    if n == u64::MAX {
        0
    } else {
        n + 1
    }
}

// A peer subscribes

/// What is to be said to a peer that wants to subscribe: why it cannot, that it already is
/// subscribed, or nothing yet (`None`), where a way to it must first be made.
pub open spec fn subscriber_answer<H>(
    v: OwnerView<H>,
    p: PeerView<H>,
    topic: Seq<char>,
    sub: Seq<u8>,
    mode: DeliveryMode,
) -> Option<u64> {
    if !(claims_allow(p.reg.cert.claims, topic, false) && claims_allow(v.cert.claims, topic, true)
        && v.drain is None) {
        Some(1)
    } else if p.outbound.contains_key(topic) && p.outbound[topic].sub == sub
        && p.outbound[topic].mode == mode {
        Some(0)
    } else if !p.outbound.contains_key(topic) && (p.outbound.dom().len() >= v.config.max_topics
        || p.outbound.dom().len() >= p.reg.max_topics || subscriptions_used_up(
        p.reg.cert.claims.limits,
        p.outbound.dom().len(),
    )) {
        Some(2)
    } else {
        None
    }
}

/// A way to a subscription that nothing has passed on yet.
pub open spec fn fresh_binding<H>(sub: Seq<u8>, mode: DeliveryMode, writer: H) -> BindingView<H> {
    BindingView { sub, mode, credit: None, requested: false, room: true, writer }
}

/// What comes of a peer's wish to subscribe. `writer` is the way to it, or why none could be made.
pub open spec fn after_subscribe<H>(
    v: OwnerView<H>,
    peer: Seq<u8>,
    topic: Seq<char>,
    sub: Seq<u8>,
    mode: DeliveryMode,
    writer: Result<H, Error>,
) -> Effect<H> {
    if !v.peers.contains_key(peer) {
        (v, Err(Error::PeerUnavailable))
    } else {
        let p = v.peers[peer];
        match subscriber_answer(v, p, topic, sub, mode) {
            Some(code) => (
                with_peer(v, peer, told(p, ControlView::Suback { topic, sub, code })),
                Ok(()),
            ),
            None => match writer {
                Err(e) => (v, Err(e)),
                Ok(writer) => {
                    let bound = PeerView {
                        outbound: p.outbound.insert(topic, fresh_binding(sub, mode, writer)),
                        ..p
                    };
                    (
                        with_peer(
                            v,
                            peer,
                            told(bound, ControlView::Suback { topic, sub, code: 0 }),
                        ),
                        Ok(()),
                    )
                },
            },
        }
    }
}

/// What comes of a peer's answer to a subscription of this endpoint.
pub open spec fn after_suback<H>(
    v: OwnerView<H>,
    peer: Seq<u8>,
    topic: Seq<char>,
    sub: Seq<u8>,
    code: u64,
) -> Effect<H> {
    if v.subscriptions.contains_key(topic) && v.subscriptions[topic].id == sub {
        let s = v.subscriptions[topic];
        if code == 0 {
            (
                with_local(
                    v,
                    topic,
                    SubscriptionView {
                        confirmed: s.confirmed.insert(peer),
                        ready: s.ready.insert(peer, Ok(())),
                        ..s
                    },
                ),
                Ok(()),
            )
        } else if code == 1 {
            (
                with_local(
                    v,
                    topic,
                    SubscriptionView {
                        ready: s.ready.insert(peer, Err(Error::Unauthorized)),
                        ..s
                    },
                ),
                Ok(()),
            )
        } else if code == 2 {
            (
                with_local(
                    v,
                    topic,
                    SubscriptionView { ready: s.ready.insert(peer, Err(Error::QueueFull)), ..s },
                ),
                Ok(()),
            )
        } else {
            (v, Err(Error::Protocol("SUBACK code")))
        }
    } else {
        (v, Ok(()))
    }
}

/// What ends the deliveries to a subscription that is given up.
pub open spec fn ending_unsubscribed<H>(
    peer: Seq<u8>,
    sub: Seq<u8>,
    topic: Seq<char>,
) -> Ending<H> {
    |k: DeliveryKeyView, p: PendingView<H>|
        if k.peer == peer && k.sub == sub && k.id.topic == topic {
            Some(RecipientOutcome::Failed(Error::SubscriptionClosed))
        } else {
            None
        }
}

/// What comes of a peer giving up a subscription.
pub open spec fn after_unsubscribe<H>(
    v: OwnerView<H>,
    peer: Seq<u8>,
    topic: Seq<char>,
    sub: Seq<u8>,
) -> Effect<H> {
    let peers = if v.peers.contains_key(peer) && v.peers[peer].outbound.contains_key(topic)
        && v.peers[peer].outbound[topic].sub == sub {
        v.peers.insert(
            peer,
            PeerView { outbound: v.peers[peer].outbound.remove(topic), ..v.peers[peer] },
        )
    } else {
        v.peers
    };
    (
        OwnerView {
            peers,
            deliveries: after_ending(
                v.deliveries,
                ending_unsubscribed(peer, sub, topic),
                grace_of(v.config),
            ),
            ..v
        },
        Ok(()),
    )
}

// Credit

/// What comes of a peer asking for room for a frame, or giving it back where `bytes` is zero. What
/// it asks for is kept until it is granted, also while a grant is outstanding: the request may
/// overtake the frame that uses the grant.
pub open spec fn after_request<H>(
    v: OwnerView<H>,
    peer: Seq<u8>,
    topic: Seq<char>,
    sub: Seq<u8>,
    bytes: usize,
) -> Effect<H> {
    if bytes > v.config.max_payload + FRAME_OVERHEAD {
        (v, Err(Error::Protocol("credit request ceiling")))
    } else if v.subscriptions.contains_key(topic) && v.subscriptions[topic].id == sub
        && v.subscriptions[topic].confirmed.contains(peer) {
        let s = v.subscriptions[topic];
        let after = if bytes == 0 {
            SubscriptionView {
                grants: s.grants.remove(peer),
                demand: s.demand.remove(peer),
                ..s
            }
        } else {
            SubscriptionView { demand: s.demand.insert(peer, bytes), ..s }
        };
        (with_local(v, topic, after), Ok(()))
    } else {
        (v, Ok(()))
    }
}

/// Whether a delivery is on its way to a subscription.
pub open spec fn awaited<H>(
    m: Map<DeliveryKeyView, PendingView<H>>,
    peer: Seq<u8>,
    sub: Seq<u8>,
    topic: Seq<char>,
) -> bool {
    exists|k: DeliveryKeyView| #[trigger]
        m.contains_key(k) && k.peer == peer && k.sub == sub && k.id.topic == topic
}

/// What comes of a peer granting room for a frame.
pub open spec fn after_credit<H>(
    v: OwnerView<H>,
    peer: Seq<u8>,
    topic: Seq<char>,
    sub: Seq<u8>,
    bytes: usize,
) -> Effect<H> {
    if !v.peers.contains_key(peer) {
        (v, Err(Error::PeerUnavailable))
    } else {
        let p = v.peers[peer];
        if bytes > p.reg.max_payload + FRAME_OVERHEAD || bytes == 0 {
            (v, Err(Error::Protocol("credit byte ceiling")))
        } else if p.outbound.contains_key(topic) && p.outbound[topic].sub == sub {
            let b = p.outbound[topic];
            if !b.requested {
                (v, Err(Error::Protocol("unsolicited or duplicate credit grant")))
            } else if b.credit is Some {
                let after = BindingView { credit: Some(bytes), ..b };
                (
                    with_peer(
                        v,
                        peer,
                        PeerView { outbound: p.outbound.insert(topic, after), ..p },
                    ),
                    Err(Error::Protocol("unsolicited or duplicate credit grant")),
                )
            } else if awaited(v.deliveries.pending, peer, sub, topic) {
                let after = BindingView { credit: Some(bytes), requested: false, ..b };
                (
                    with_peer(
                        v,
                        peer,
                        PeerView { outbound: p.outbound.insert(topic, after), ..p },
                    ),
                    Ok(()),
                )
            } else {
                let after = BindingView { credit: None, requested: false, ..b };
                let q = PeerView { outbound: p.outbound.insert(topic, after), ..p };
                (
                    with_peer(
                        v,
                        peer,
                        told(q, ControlView::RequestCredit { topic, sub, bytes: 0 }),
                    ),
                    Ok(()),
                )
            }
        } else {
            (v, Ok(()))
        }
    }
}

// Acknowledgements

/// The message of this endpoint with this number, in the run `epoch`.
pub open spec fn own_message<H>(
    v: OwnerView<H>,
    epoch: Seq<u8>,
    topic: Seq<char>,
    sequence: u64,
) -> MessageIdView {
    MessageIdView {
        realm_id: v.config.trust.realm,
        publisher_endpoint_id: own_id(v),
        publisher_epoch: epoch,
        topic,
        sequence,
    }
}

/// The state after a delivery ends.
pub open spec fn after_end<H>(
    v: OwnerView<H>,
    key: DeliveryKeyView,
    outcome: RecipientOutcome,
) -> OwnerView<H> {
    OwnerView {
        deliveries: after_ending(v.deliveries, ending_one(key, outcome), grace_of(v.config)),
        ..v
    }
}

/// What comes of a peer saying what became of a delivery: `0` that it is processed, `1` that it
/// should be tried again, `2` that it is refused.
pub open spec fn after_outcome<H>(
    v: OwnerView<H>,
    key: DeliveryKeyView,
    code: u64,
    now: u128,
) -> Effect<H> {
    let d = v.deliveries;
    if !d.pending.contains_key(key) && !d.closed.contains_key(key) {
        (v, Err(Error::Protocol("acknowledgement for an unaddressed delivery")))
    } else if !d.pending.contains_key(key) {
        (v, Ok(()))
    } else if d.pending[key].attempts == 0 {
        (v, Err(Error::Protocol("ACK before DATA")))
    } else if code == 0 {
        let w = after_end(v, key, RecipientOutcome::Processed);
        (
            OwnerView {
                stats: Metrics {
                    processed: next_count(v.stats.processed),
                    ..v.stats
                },
                ..w
            },
            Ok(()),
        )
    } else if code == 1 {
        let p = PendingView { next: (now + v.config.retry_interval) as u128, ..d.pending[key] };
        (
            OwnerView {
                deliveries: DeliveriesView { pending: d.pending.insert(key, p), ..d },
                ..v
            },
            Ok(()),
        )
    } else if code == 2 {
        (after_end(v, key, RecipientOutcome::PermanentNack), Ok(()))
    } else {
        (v, Err(Error::Protocol("outcome")))
    }
}

/// What comes of a control record of a peer.
pub open spec fn after_control<H>(
    v: OwnerView<H>,
    peer: Seq<u8>,
    c: ControlView,
    writer: Result<H, Error>,
    now: u128,
) -> Effect<H> {
    match c {
        ControlView::Subscribe { topic, sub, mode } => after_subscribe(
            v,
            peer,
            topic,
            sub,
            mode,
            writer,
        ),
        ControlView::Suback { topic, sub, code } => after_suback(v, peer, topic, sub, code),
        ControlView::Unsubscribe { topic, sub } => after_unsubscribe(v, peer, topic, sub),
        ControlView::RequestCredit { topic, sub, bytes } => after_request(
            v,
            peer,
            topic,
            sub,
            bytes as usize,
        ),
        ControlView::Credit { topic, sub, bytes } => after_credit(
            v,
            peer,
            topic,
            sub,
            bytes as usize,
        ),
        ControlView::Outcome { topic, sub, epoch, sequence, code } => after_outcome(
            v,
            DeliveryKeyView { peer, sub, id: own_message(v, epoch, topic, sequence) },
            code,
            now,
        ),
        ControlView::Error(_) => (v, Err(Error::Protocol("remote error"))),
        ControlView::Goodbye => if v.peers.contains_key(peer) {
            let p = v.peers[peer];
            (
                with_peer(
                    v,
                    peer,
                    PeerView { reg: SessionView { window_secs: 0, ..p.reg }, ..p },
                ),
                Ok(()),
            )
        } else {
            (v, Ok(()))
        },
    }
}

/// Whether a delivery is on its way to a subscription.
pub(crate) fn any_awaited<H>(
    pending: &OrderedMap<DeliveryKey, Pending<H>>,
    peer: &EndpointId,
    sub: &Id,
    topic: &Topic,
) -> (r: bool)
    ensures
        r == awaited(pending@, peer@, sub@, topic@),
{
    proof {
        use_type_invariant(pending);
        pending.lemma_pairs();
    }
    let mut i: usize = 0;
    while i < pending.len()
        invariant
            i <= pending.pairs().len(),
            forall|j: int|
                0 <= j < pending.pairs().len() ==> pending@.contains_key(
                    (#[trigger] pending.pairs()[j]).0,
                ),
            forall|j: int|
                0 <= j < i ==> !((#[trigger] pending.pairs()[j]).0.peer == peer@
                    && pending.pairs()[j].0.sub == sub@ && pending.pairs()[j].0.id.topic == topic@),
        decreases pending.pairs().len() - i,
    {
        let k = pending.key_at(i);
        if k.peer.same(peer) && same_bytes(&k.sub, sub) && k.id.topic.same(topic) {
            assert(pending@.contains_key(k@));
            return true;
        }
        i = i + 1;
    }
    proof {
        use_type_invariant(pending);
        pending.lemma_pairs();
        if awaited(pending@, peer@, sub@, topic@) {
            let k = choose|k: DeliveryKeyView| #[trigger]
                pending@.contains_key(k) && k.peer == peer@ && k.sub == sub@ && k.id.topic
                    == topic@;
            let j = choose|j: int|
                0 <= j < pending.pairs().len() && (#[trigger] pending.pairs()[j]).0 == k;
            assert(false);
        }
    }
    false
}

impl<H> Owner<H> {
    /// What is to be said to a peer that wants to subscribe; `None` where a way to it must first
    /// be made.
    pub fn review_subscriber(
        &self,
        peer: &EndpointId,
        topic: &Topic,
        sub: &Id,
        mode: DeliveryMode,
    ) -> (r: Result<Option<u64>, Error>)
        ensures
            r == if !self@.peers.contains_key(peer@) {
                Err::<Option<u64>, Error>(Error::PeerUnavailable)
            } else {
                Ok(subscriber_answer(self@, self@.peers[peer@], topic@, sub@, mode))
            },
    {
        let p = match self.peers.get(peer) {
            Some(p) => p,
            None => return Err(Error::PeerUnavailable),
        };
        if !(p.reg.cert.allows(topic, false) && self.cert.allows(topic, true)
            && self.drain.is_none()) {
            return Ok(Some(1));
        }
        match p.outbound.get(topic) {
            Some(b) => {
                if same_bytes(&b.sub, sub) && b.mode == mode {
                    return Ok(Some(0));
                }
            },
            None => {
                let ceiling = p.reg.cert.limits().max_subscriptions;
                let n: usize = p.outbound.len();
                if n >= self.config.max_topics || n >= p.reg.max_topics || (ceiling != 0 && n as u64
                    >= ceiling) {
                    return Ok(Some(2));
                }
            },
        }
        Ok(None)
    }

    fn control_subscribe(
        &mut self,
        peer: &EndpointId,
        topic: Topic,
        sub: Id,
        mode: DeliveryMode,
        writer: Result<H, Error>,
    ) -> (r: Result<(), Error>)
        ensures
            (final(self)@, r) == after_subscribe(
                old(self)@,
                peer@,
                topic@,
                sub@,
                mode,
                writer,
            ),
    {
        match self.review_subscriber(peer, &topic, &sub, mode)? {
            Some(code) => {
                if let Some(p) = self.peers.get_mut(peer) {
                    p.tell(Control::Suback { topic, sub, code });
                }
                Ok(())
            },
            None => {
                let writer = writer?;
                if let Some(p) = self.peers.get_mut(peer) {
                    p.outbound.insert(
                        topic.clone(),
                        Binding { sub, mode, credit: None, requested: false, room: true, writer },
                    );
                    p.tell(Control::Suback { topic, sub, code: 0 });
                }
                Ok(())
            },
        }
    }

    fn control_suback(&mut self, peer: &EndpointId, topic: Topic, sub: Id, code: u64) -> (r: Result<
        (),
        Error,
    >)
        ensures
            (final(self)@, r) == after_suback(old(self)@, peer@, topic@, sub@, code),
    {
        let known = match self.subscriptions.get(&topic) {
            Some(s) => same_bytes(&s.id, &sub),
            None => false,
        };
        if !known {
            return Ok(());
        }
        if code > 2 {
            return Err(Error::Protocol("SUBACK code"));
        }
        if let Some(s) = self.subscriptions.get_mut(&topic) {
            let ghost before = s@;
            if code == 0 {
                s.confirmed.insert(*peer, ());
                s.ready.insert(*peer, Answer { result: Ok(()) });
                assert(s@.confirmed =~= before.confirmed.insert(peer@));
            } else if code == 1 {
                s.ready.insert(*peer, Answer { result: Err(Error::Unauthorized) });
            } else {
                s.ready.insert(*peer, Answer { result: Err(Error::QueueFull) });
            }
        }
        Ok(())
    }

    fn control_unsubscribe(&mut self, peer: &EndpointId, topic: Topic, sub: Id)
        ensures
            final(self)@ == after_unsubscribe(old(self)@, peer@, topic@, sub@).0,
    {
        let grace = self.grace();
        if let Some(p) = self.peers.get_mut(peer) {
            let bound = match p.outbound.get(&topic) {
                Some(b) => same_bytes(&b.sub, &sub),
                None => false,
            };
            if bound {
                p.outbound.remove(&topic);
            } else {
                assert(old(self)@.peers.insert(peer@, p@) =~= old(self)@.peers);
            }
        }
        let gone = *peer;
        let give_up = |k: &DeliveryKey, p: &Pending<H>| -> (o: Option<RecipientOutcome>)
            ensures
                o == ending_unsubscribed(gone@, sub@, topic@)(k@, p@),
            {
                if k.peer.same(&gone) && same_bytes(&k.sub, &sub) && k.id.topic.same(&topic) {
                    Some(RecipientOutcome::Failed(Error::SubscriptionClosed))
                } else {
                    None
                }
            };
        self.deliveries.end_each(give_up, grace, Ghost(ending_unsubscribed(peer@, sub@, topic@)));
    }

    fn control_request(&mut self, peer: &EndpointId, topic: Topic, sub: Id, bytes: usize) -> (r:
        Result<(), Error>)
        ensures
            (final(self)@, r) == after_request(old(self)@, peer@, topic@, sub@, bytes),
    {
        if bytes > FRAME_OVERHEAD && bytes - FRAME_OVERHEAD > self.config.max_payload {
            return Err(Error::Protocol("credit request ceiling"));
        }
        if let Some(s) = self.subscriptions.get_mut(&topic) {
            if same_bytes(&s.id, &sub) && s.confirmed.contains_key(peer) {
                if bytes == 0 {
                    s.grants.remove(peer);
                    s.demand.remove(peer);
                } else {
                    s.demand.insert(*peer, bytes);
                }
            } else {
                assert(old(self)@.subscriptions.insert(topic@, s@) =~= old(self)@.subscriptions);
            }
        }
        Ok(())
    }

    /// Whether a delivery is on its way to a subscription.
    pub fn awaits(&self, peer: &EndpointId, sub: &Id, topic: &Topic) -> (r: bool)
        ensures
            r == awaited(self@.deliveries.pending, peer@, sub@, topic@),
    {
        any_awaited(&self.deliveries.pending, peer, sub, topic)
    }

    fn control_credit(&mut self, peer: &EndpointId, topic: Topic, sub: Id, bytes: usize) -> (r:
        Result<(), Error>)
        ensures
            (final(self)@, r) == after_credit(old(self)@, peer@, topic@, sub@, bytes),
    {
        let waiting = self.awaits(peer, &sub, &topic);
        let p = match self.peers.get_mut(peer) {
            Some(p) => p,
            None => return Err(Error::PeerUnavailable),
        };
        let ghost before = p@;
        proof {
            assert(old(self)@.peers.insert(peer@, before) =~= old(self)@.peers);
        }
        if bytes == 0 || (bytes > FRAME_OVERHEAD && bytes - FRAME_OVERHEAD > p.reg.max_payload) {
            return Err(Error::Protocol("credit byte ceiling"));
        }
        let b = match p.outbound.get_mut(&topic) {
            Some(b) => b,
            None => return Ok(()),
        };
        let ghost bound = b@;
        proof {
            assert(before.outbound.insert(topic@, bound) =~= before.outbound);
        }
        if !same_bytes(&b.sub, &sub) {
            return Ok(());
        }
        if !b.requested {
            return Err(Error::Protocol("unsolicited or duplicate credit grant"));
        }
        if b.credit.is_some() {
            b.credit = Some(bytes);
            return Err(Error::Protocol("unsolicited or duplicate credit grant"));
        }
        b.requested = false;
        if waiting {
            b.credit = Some(bytes);
        } else {
            p.tell(Control::RequestCredit { topic, sub, bytes: 0 });
        }
        Ok(())
    }

    fn control_outcome(&mut self, key: &DeliveryKey, code: u64, now: u128) -> (r: Result<(), Error>)
        requires
            now <= LAST_MOMENT,
        ensures
            (final(self)@, r) == after_outcome(old(self)@, key@, code, now),
    {
        let grace = self.grace();
        let wait: u128 = self.config.retry_interval.as_nanos();
        let ghost start = self@;
        match self.deliveries.pending.get_mut(key) {
            None => {
                if !self.deliveries.closed.contains_key(key) {
                    return Err(Error::Protocol("acknowledgement for an unaddressed delivery"));
                }
                return Ok(());
            },
            Some(p) => {
                let ghost before = p@;
                proof {
                    assert(start.deliveries.pending.insert(key@, before)
                        =~= start.deliveries.pending);
                }
                if p.attempts == 0 {
                    return Err(Error::Protocol("ACK before DATA"));
                }
                if code == 1 {
                    p.next = now + wait;
                    return Ok(());
                }
            },
        }
        if code == 0 {
            self.stats.processed = count_up(self.stats.processed);
            self.deliveries.end(key, RecipientOutcome::Processed, grace);
            Ok(())
        } else if code == 2 {
            self.deliveries.end(key, RecipientOutcome::PermanentNack, grace);
            Ok(())
        } else {
            Err(Error::Protocol("outcome"))
        }
    }

    /// Takes in a control record of a peer. Where a peer wants to subscribe and a way to it must
    /// be made, `writer` is that way or why there is none. The error says how the record was out
    /// of order.
    pub fn control(
        &mut self,
        peer: &EndpointId,
        control: Control,
        writer: Result<H, Error>,
        now: u128,
    ) -> (r: Result<(), Error>)
        requires
            now <= LAST_MOMENT,
        ensures
            (final(self)@, r) == after_control(
                old(self)@,
                peer@,
                control@,
                writer,
                now,
            ),
    {
        match control {
            Control::Subscribe { topic, sub, mode } => self.control_subscribe(
                peer,
                topic,
                sub,
                mode,
                writer,
            ),
            Control::Suback { topic, sub, code } => self.control_suback(peer, topic, sub, code),
            Control::Unsubscribe { topic, sub } => {
                self.control_unsubscribe(peer, topic, sub);
                Ok(())
            },
            Control::RequestCredit { topic, sub, bytes } => self.control_request(
                peer,
                topic,
                sub,
                bytes,
            ),
            Control::Credit { topic, sub, bytes } => self.control_credit(peer, topic, sub, bytes),
            Control::Outcome { topic, sub, epoch, sequence, code } => {
                let key = DeliveryKey {
                    peer: *peer,
                    sub,
                    id: MessageId {
                        realm_id: self.config.trust.realm_id(),
                        publisher_endpoint_id: self.endpoint_id(),
                        publisher_epoch: epoch,
                        topic,
                        sequence,
                    },
                };
                self.control_outcome(&key, code, now)
            },
            Control::Error(_) => Err(Error::Protocol("remote error")),
            Control::Goodbye => {
                // Stop new fan-out admissions; previously admitted deliveries may drain.
                if let Some(p) = self.peers.get_mut(peer) {
                    p.reg.window_secs = 0;
                }
                Ok(())
            },
        }
    }

    /// Takes in a control record that came in a session. A peer that may not act, or whose record
    /// is out of order, is let go.
    pub fn remote(
        &mut self,
        peer: &EndpointId,
        session: &Id,
        control: Control,
        writer: Result<H, Error>,
        clock: Option<u64>,
        now: u128,
    )
        requires
            now <= LAST_MOMENT,
        ensures
            final(self)@ == after_remote(
                old(self)@,
                peer@,
                session@,
                control@,
                writer,
                clock,
                now,
            ),
    {
        let current = match self.peers.get(peer) {
            Some(p) => same_bytes(&p.reg.session, session),
            None => false,
        };
        if !current {
            return;
        }
        let in_order = match self.peer_valid(peer, session, clock) {
            Err(_) => false,
            Ok(_) => match self.control(peer, control, writer, now) {
                Ok(()) => true,
                Err(_) => false,
            },
        };
        if !in_order {
            self.stats.authorization_failures = count_up(self.stats.authorization_failures);
            self.remove_peer(peer, now);
        }
    }
}

/// The state after a peer is let go because it did what it may not.
pub open spec fn after_offence<H>(v: OwnerView<H>, peer: Seq<u8>, now: u128) -> OwnerView<H> {
    without_peer(
        OwnerView {
            stats: Metrics {
                authorization_failures: next_count(v.stats.authorization_failures),
                ..v.stats
            },
            ..v
        },
        peer,
        now,
    )
}

/// What comes of a control record that came in a session.
pub open spec fn after_remote<H>(
    v: OwnerView<H>,
    peer: Seq<u8>,
    session: Seq<u8>,
    c: ControlView,
    writer: Result<H, Error>,
    clock: Option<u64>,
    now: u128,
) -> OwnerView<H> {
    if !v.peers.contains_key(peer) || v.peers[peer].reg.session != session {
        v
    } else if valid_peer(v, peer, session, clock) is Err {
        after_offence(v, peer, now)
    } else {
        let effect = after_control(v, peer, c, writer, now);
        if effect.1 is Err {
            after_offence(effect.0, peer, now)
        } else {
            effect.0
        }
    }
}

} // verus!
