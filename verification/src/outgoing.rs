//! Messages on their way out: who gets them, and when they are sent.
use crate::auth::{claims_allow, sealed, trust_check};
use crate::control::{after_end, count_up, next_count};
use crate::cose::signed_bytes;
use crate::crypto::{digest, proper_commitment, sha256, signature, EndpointId, Id};
use crate::deliveries::{
    after_ending, DeliveriesView, DeliveryKey, DeliveryKeyView, Ending, Pending, PendingView,
};
use crate::endpoint::{Metrics, RecipientOutcome, FRAME_PREFIX, LAST_MOMENT, PAYLOAD_OVERHEAD};
use crate::error::Error;
use crate::message::{
    compare_messages, envelope_bytes, message_context, signed_envelope_of, DeliveryMode, Envelope,
    EnvelopeView, MessageId, MessageIdView, Topic, MAX_FORMAT,
};
use crate::octets::{same_bytes, Relation};
use crate::ordered::listing;
use crate::owner::{
    grace_of, key_views, own_id, payload_too_large, told, valid_time, without_peer, BindingView,
    Owner, OwnerView, PeerView,
};
use crate::time::{max_nanos, Duration};
use crate::wire::{data, data_bytes, Control, ControlView};
use vstd::prelude::*;
use vstd::slice::slice_to_vec;
use vstd::utf8::encode_utf8;

verus! {

// Who gets a message

/// Whether a peer gets the messages of a topic that are delivered in this way.
pub open spec fn eligible<H>(
    v: OwnerView<H>,
    id: Seq<u8>,
    p: PeerView<H>,
    topic: Seq<char>,
    mode: DeliveryMode,
    t: u64,
) -> bool {
    &&& p.outbound.contains_key(topic)
    &&& p.outbound[topic].mode == mode
    &&& p.reg.window_secs > 0
    &&& trust_check(v.config.trust, p.reg.cert.claims, id, t) is Ok
}

/// The peers on a list that get a message, and the subscriptions that they get it for.
pub open spec fn recipients<H>(
    v: OwnerView<H>,
    s: Seq<(Seq<u8>, PeerView<H>)>,
    topic: Seq<char>,
    mode: DeliveryMode,
    t: u64,
) -> Seq<(Seq<u8>, Seq<u8>)>
    decreases s.len(),
{
    if s.len() == 0 {
        Seq::empty()
    } else {
        let before = recipients(v, s.drop_last(), topic, mode, t);
        if eligible(v, s.last().0, s.last().1, topic, mode, t) {
            before.push((s.last().0, s.last().1.outbound[topic].sub))
        } else {
            before
        }
    }
}

/// What is known of a message before it has a number: when it is published, and who gets it.
pub open spec fn publication_review<H>(
    v: OwnerView<H>,
    topic: Seq<char>,
    len: nat,
    mode: DeliveryMode,
    lifetime: nat,
    format: Seq<char>,
    clock: Option<u64>,
) -> Result<(u64, Seq<(Seq<u8>, Seq<u8>)>), Error> {
    match valid_time(v, clock) {
        Err(e) => Err(e),
        Ok(t) => {
            let all = recipients(v, listing::<EndpointId, PeerView<H>>(v.peers), topic, mode, t);
            if v.drain is Some {
                Err(Error::ShuttingDown)
            } else if !claims_allow(v.cert.claims, topic, true) {
                Err(Error::Unauthorized)
            } else if len > v.config.max_payload || payload_too_large(v.cert.claims.limits, len) {
                Err(Error::MessageTooLarge)
            } else if lifetime / 1_000_000_000 == 0 || lifetime > v.config.delivery_window
                || encode_utf8(format).len() > MAX_FORMAT {
                Err(Error::Config("publication lifetime or format"))
            } else if all.len() == 0 {
                Err(Error::NoSubscribers)
            } else if !v.sequences.contains_key(topic) && v.sequences.dom().len()
                >= v.config.max_topics {
                Err(Error::QueueFull)
            } else {
                Ok((t, all))
            }
        },
    }
}

/// The number of the last message on a topic, or zero.
pub open spec fn last_sequence<H>(v: OwnerView<H>, topic: Seq<char>) -> u64 {
    if v.sequences.contains_key(topic) {
        v.sequences[topic]
    } else {
        0
    }
}

/// A message that is about to be sent, as a value.
#[verifier::ext_equal]
pub struct PublicationView {
    pub envelope: EnvelopeView,
    pub signed: Seq<u8>,
    pub recipients: Seq<(Seq<u8>, Seq<u8>)>,
    pub lifetime: nat,
}

/// A message that is about to be sent.
pub struct Publication {
    pub envelope: Envelope,
    pub signed: Vec<u8>,
    pub recipients: Vec<(EndpointId, Id)>,
    pub lifetime: Duration,
}

/// The views of a list of recipients.
pub open spec fn recipient_views(s: Seq<(EndpointId, Id)>) -> Seq<(Seq<u8>, Seq<u8>)> {
    Seq::new(s.len(), |i: int| (s[i].0@, s[i].1@))
}

impl View for Publication {
    type V = PublicationView;

    open spec fn view(&self) -> PublicationView {
        PublicationView {
            envelope: self.envelope@,
            signed: self.signed@,
            recipients: recipient_views(self.recipients@),
            lifetime: self.lifetime@,
        }
    }
}

/// What comes of a wish to publish: the state after it, and the message. A message that is given a
/// number keeps it, whatever becomes of it afterwards.
pub open spec fn after_numbering<H>(
    v: OwnerView<H>,
    topic: Seq<char>,
    payload: Seq<u8>,
    mode: DeliveryMode,
    lifetime: nat,
    format: Seq<char>,
    clock: Option<u64>,
) -> (OwnerView<H>, Result<PublicationView, Error>) {
    match publication_review(v, topic, payload.len(), mode, lifetime, format, clock) {
        Err(e) => (v, Err(e)),
        Ok((t, all)) => if last_sequence(v, topic) == u64::MAX {
            (v, Err(Error::Config("sequence exhausted")))
        } else {
            let sequence = (last_sequence(v, topic) + 1) as u64;
            let w = OwnerView { sequences: v.sequences.insert(topic, sequence), ..v };
            if t + lifetime / 1_000_000_000 > u64::MAX {
                (w, Err(Error::Clock))
            } else {
                let envelope = EnvelopeView {
                    id: MessageIdView {
                        realm_id: v.config.trust.realm,
                        publisher_endpoint_id: own_id(v),
                        publisher_epoch: v.epoch,
                        topic,
                        sequence,
                    },
                    created: t,
                    expires: (t + lifetime / 1_000_000_000) as u64,
                    format,
                    len: payload.len() as u64,
                    digest: sha256(payload),
                    mode,
                };
                (
                    w,
                    Ok(
                        PublicationView {
                            envelope,
                            signed: sealed(v.secret, envelope_bytes(envelope), message_context()),
                            recipients: all,
                            lifetime,
                        },
                    ),
                )
            }
        },
    }
}

/// What a result says of a publication.
pub open spec fn publication_outcome(r: Result<Publication, Error>) -> Result<
    PublicationView,
    Error,
> {
    match r {
        Ok(p) => Ok(p@),
        Err(e) => Err(e),
    }
}

impl<H> Owner<H> {
    /// The peers that get a message of a topic, and the subscriptions that they get it for.
    fn find_recipients(&self, topic: &Topic, mode: DeliveryMode, now: u64) -> (r: Vec<
        (EndpointId, Id),
    >)
        ensures
            recipient_views(r@) == recipients(
                self@,
                listing::<EndpointId, PeerView<H>>(self@.peers),
                topic@,
                mode,
                now,
            ),
    {
        let mut r: Vec<(EndpointId, Id)> = Vec::new();
        let ghost all = self.peers.pairs();
        proof {
            use_type_invariant(&self.peers);
            self.peers.lemma_pairs();
            assert(all.take(0) =~= Seq::empty());
            assert(recipient_views(r@) =~= Seq::empty());
        }
        let mut i: usize = 0;
        while i < self.peers.len()
            invariant
                i <= self.peers.pairs().len(),
                all == self.peers.pairs(),
                recipient_views(r@) == recipients(self@, all.take(i as int), topic@, mode, now),
            decreases all.len() - i,
        {
            let id = self.peers.key_at(i);
            let p = self.peers.value_at(i);
            let ghost before = r@;
            proof {
                let next = all.take(i + 1);
                assert(next.drop_last() =~= all.take(i as int));
                assert(next.last() == all[i as int]);
            }
            if let Some(b) = p.outbound.get(topic) {
                if b.mode == mode && p.reg.window_secs > 0 && self.config.trust.check(
                    &p.reg.cert,
                    *id,
                    now,
                ).is_ok() {
                    r.push((*id, b.sub));
                    assert(recipient_views(r@) =~= recipient_views(before).push((id@, b.sub@)));
                }
            }
            i = i + 1;
        }
        assert(all.take(i as int) =~= all);
        r
    }

    /// Gives a message its number, and finds out who gets it.
    pub fn number(
        &mut self,
        topic: Topic,
        payload: &[u8],
        mode: DeliveryMode,
        lifetime: Duration,
        format: String,
        clock: Option<u64>,
    ) -> (r: Result<Publication, Error>)
        ensures
            (final(self)@, publication_outcome(r)) == after_numbering(
                old(self)@,
                topic@,
                payload@,
                mode,
                lifetime@,
                format@,
                clock,
            ),
            r matches Ok(m) ==> proper_commitment(
                signature(
                    old(self)@.secret,
                    signed_bytes(envelope_bytes(m@.envelope), message_context()),
                ),
            ) ==> signed_envelope_of(m@.signed, own_id(old(self)@)) == Ok::<EnvelopeView, Error>(
                m@.envelope,
            ),
    {
        let now = self.local_valid(clock)?;
        if self.drain.is_some() {
            return Err(Error::ShuttingDown);
        }
        if !self.cert.allows(&topic, true) {
            return Err(Error::Unauthorized);
        }
        let ceiling = self.cert.limits().max_payload;
        if payload.len() > self.config.max_payload || (ceiling != 0 && payload.len() as u64
            > ceiling) {
            return Err(Error::MessageTooLarge);
        }
        if lifetime.as_secs() == 0 || lifetime.exceeds(&self.config.delivery_window)
            || format.as_str().as_bytes().len() > MAX_FORMAT {
            return Err(Error::Config("publication lifetime or format"));
        }
        let recipients = self.find_recipients(&topic, mode, now);
        if recipients.len() == 0 {
            return Err(Error::NoSubscribers);
        }
        let last: u64 = match self.sequences.get(&topic) {
            Some(n) => *n,
            None => {
                if self.sequences.len() >= self.config.max_topics {
                    return Err(Error::QueueFull);
                }
                0
            },
        };
        if last == u64::MAX {
            return Err(Error::Config("sequence exhausted"));
        }
        let sequence: u64 = last + 1;
        self.sequences.insert(topic.clone(), sequence);
        let expires = match now.checked_add(lifetime.as_secs()) {
            Some(t) => t,
            None => return Err(Error::Clock),
        };
        let envelope = Envelope {
            id: MessageId {
                realm_id: self.config.trust.realm_id(),
                publisher_endpoint_id: self.endpoint_id(),
                publisher_epoch: self.epoch,
                topic,
                sequence,
            },
            created: now,
            expires,
            format,
            len: payload.len(),
            digest: digest(payload),
            mode,
        };
        let signed = envelope.sign(self.identity.secret());
        Ok(Publication { envelope, signed, recipients, lifetime })
    }
}

// How much is on its way to a peer

/// What a delivery counts as, in bytes.
pub open spec fn delivery_charge<H>(p: PendingView<H>) -> nat {
    p.envelope.len as nat + p.signed.len() + PAYLOAD_OVERHEAD as nat
}

/// How many deliveries of a list are on their way to a peer.
pub open spec fn backlog_messages<H>(
    s: Seq<(DeliveryKeyView, PendingView<H>)>,
    peer: Seq<u8>,
) -> nat
    decreases s.len(),
{
    if s.len() == 0 {
        0
    } else {
        backlog_messages(s.drop_last(), peer) + if s.last().0.peer == peer {
            1nat
        } else {
            0
        }
    }
}

/// How many bytes the deliveries of a list to a peer count as.
pub open spec fn backlog_bytes<H>(s: Seq<(DeliveryKeyView, PendingView<H>)>, peer: Seq<u8>) -> nat
    decreases s.len(),
{
    if s.len() == 0 {
        0
    } else {
        backlog_bytes(s.drop_last(), peer) + if s.last().0.peer == peer {
            delivery_charge(s.last().1)
        } else {
            0
        }
    }
}

/// All deliveries of an endpoint, in order.
pub open spec fn delivery_list<H>(m: Map<DeliveryKeyView, PendingView<H>>) -> Seq<
    (DeliveryKeyView, PendingView<H>),
> {
    listing::<DeliveryKey, PendingView<H>>(m)
}

/// What becomes of a message at one of those who should get it, at first.
pub open spec fn placing<H>(
    v: OwnerView<H>,
    m: PublicationView,
    peer: Seq<u8>,
) -> RecipientOutcome {
    let charge = m.envelope.len as nat + m.signed.len() + PAYLOAD_OVERHEAD as nat;
    let all = delivery_list(v.deliveries.pending);
    if !v.peers.contains_key(peer) {
        RecipientOutcome::Rejected(Error::PeerUnavailable)
    } else if m.envelope.len > v.peers[peer].reg.max_payload || payload_too_large(
        v.peers[peer].reg.cert.claims.limits,
        m.envelope.len as nat,
    ) {
        RecipientOutcome::Rejected(Error::MessageTooLarge)
    } else if m.lifetime / 1_000_000_000 > v.peers[peer].reg.window_secs {
        RecipientOutcome::Rejected(Error::Config("delivery window exceeds peer limit"))
    } else if backlog_messages(all, peer) + 1 > v.config.per_peer_messages || backlog_bytes(
        all,
        peer,
    ) + charge > v.config.per_peer_bytes {
        RecipientOutcome::Rejected(Error::QueueFull)
    } else {
        RecipientOutcome::Pending
    }
}

/// The state after a message is put on its way to one of those who should get it, or refused.
/// `held` is what is attached to the delivery and to the memory of it.
pub open spec fn placed_one<H>(
    v: OwnerView<H>,
    m: PublicationView,
    to: (Seq<u8>, Seq<u8>),
    held: (H, H),
    now: u128,
) -> OwnerView<H> {
    if placing(v, m, to.0) is Pending {
        OwnerView {
            deliveries: DeliveriesView {
                pending: v.deliveries.pending.insert(
                    DeliveryKeyView { peer: to.0, sub: to.1, id: m.envelope.id },
                    PendingView {
                        recipient: v.peers[to.0].reg.cert,
                        signed: m.signed,
                        envelope: m.envelope,
                        deadline: (now + m.lifetime) as u128,
                        next: now,
                        attempts: 0,
                        writing: false,
                        held: held.0,
                        memory: held.1,
                    },
                ),
                ..v.deliveries
            },
            stats: Metrics { admitted: next_count(v.stats.admitted), ..v.stats },
            ..v
        }
    } else {
        OwnerView {
            stats: Metrics { rejected: next_count(v.stats.rejected), ..v.stats },
            ..v
        }
    }
}

/// The state after a message is put on its way to the first `n` of those who should get it.
pub open spec fn placed_upto<H>(
    v: OwnerView<H>,
    m: PublicationView,
    held: Seq<(H, H)>,
    n: nat,
    now: u128,
) -> OwnerView<H>
    decreases n,
{
    if n == 0 {
        v
    } else {
        placed_one(
            placed_upto(v, m, held, (n - 1) as nat, now),
            m,
            m.recipients[n - 1],
            held[n - 1],
            now,
        )
    }
}

/// What becomes of a message at each of those who should get it, at first.
pub open spec fn first_outcomes<H>(
    v: OwnerView<H>,
    m: PublicationView,
    held: Seq<(H, H)>,
    now: u128,
) -> Seq<(Seq<u8>, RecipientOutcome)> {
    Seq::new(
        m.recipients.len(),
        |i: int|
            (
                m.recipients[i].0,
                placing(placed_upto(v, m, held, i as nat, now), m, m.recipients[i].0),
            ),
    )
}

/// The views of a list of outcomes.
pub open spec fn outcome_views(s: Seq<(EndpointId, RecipientOutcome)>) -> Seq<
    (Seq<u8>, RecipientOutcome),
> {
    Seq::new(s.len(), |i: int| (s[i].0@, s[i].1))
}

impl<H> Owner<H> {
    /// How many deliveries are on their way to a peer, and how many bytes they count as: `None`
    /// where no number can tell.
    pub fn backlog(&self, peer: &EndpointId) -> (r: Option<(usize, usize)>)
        ensures
            ({
                let all = delivery_list(self@.deliveries.pending);
                match r {
                    Some((messages, bytes)) => messages == backlog_messages(all, peer@) && bytes
                        == backlog_bytes(all, peer@),
                    None => backlog_bytes(all, peer@) > usize::MAX,
                }
            }),
    {
        let pending = &self.deliveries.pending;
        proof {
            use_type_invariant(pending);
            pending.lemma_pairs();
            assert(pending.pairs().take(0) =~= Seq::empty());
        }
        let ghost all = pending.pairs();
        let mut messages: usize = 0;
        let mut bytes: usize = 0;
        let mut i: usize = 0;
        while i < pending.len()
            invariant
                i <= pending.pairs().len(),
                all == pending.pairs(),
                all == delivery_list(self@.deliveries.pending),
                messages == backlog_messages(all.take(i as int), peer@),
                messages <= i,
                bytes == backlog_bytes(all.take(i as int), peer@),
            decreases all.len() - i,
        {
            proof {
                let next = all.take(i + 1);
                assert(next.drop_last() =~= all.take(i as int));
                assert(next.last() == all[i as int]);
            }
            if pending.key_at(i).peer.same(peer) {
                let p = pending.value_at(i);
                proof {
                    lemma_backlog_grows(all, i + 1, peer@);
                }
                messages = messages + 1;
                let charge = match p.signed.len().checked_add(PAYLOAD_OVERHEAD) {
                    Some(n) => match n.checked_add(p.envelope.len) {
                        Some(n) => n,
                        None => return None,
                    },
                    None => return None,
                };
                bytes = match bytes.checked_add(charge) {
                    Some(n) => n,
                    None => return None,
                };
            }
            i = i + 1;
        }
        assert(all.take(i as int) =~= all);
        Some((messages, bytes))
    }

    /// What becomes of a message at one of those who should get it, at first.
    fn place_at(&self, m: &Publication, peer: &EndpointId) -> (r: RecipientOutcome)
        ensures
            r == placing(self@, m@, peer@),
    {
        let p = match self.peers.get(peer) {
            Some(p) => p,
            None => return RecipientOutcome::Rejected(Error::PeerUnavailable),
        };
        let len: usize = m.envelope.len;
        let ceiling = p.reg.cert.limits().max_payload;
        if len > p.reg.max_payload || (ceiling != 0 && len as u64 > ceiling) {
            return RecipientOutcome::Rejected(Error::MessageTooLarge);
        }
        if m.lifetime.as_secs() > p.reg.window_secs {
            return RecipientOutcome::Rejected(
                Error::Config("delivery window exceeds peer limit"),
            );
        }
        let (messages, bytes) = match self.backlog(peer) {
            Some(b) => b,
            None => return RecipientOutcome::Rejected(Error::QueueFull),
        };
        if messages >= self.config.per_peer_messages {
            return RecipientOutcome::Rejected(Error::QueueFull);
        }
        let total: u128 = bytes as u128 + len as u128 + m.signed.len() as u128
            + PAYLOAD_OVERHEAD as u128;
        if total > self.config.per_peer_bytes as u128 {
            return RecipientOutcome::Rejected(Error::QueueFull);
        }
        RecipientOutcome::Pending
    }

    /// Puts a message on its way to those who should get it. For each of them `held` has what is
    /// attached to the delivery and to the memory of it. The result tells what became of the
    /// message at each.
    pub fn place(&mut self, m: &Publication, held: Vec<(H, H)>, now: u128) -> (r: Vec<
        (EndpointId, RecipientOutcome),
    >)
        requires
            held@.len() == m.recipients@.len(),
            now <= LAST_MOMENT,
        ensures
            final(self)@ == placed_upto(old(self)@, m@, held@, m@.recipients.len(), now),
            outcome_views(r@) == first_outcomes(old(self)@, m@, held@, now),
    {
        let ghost start = self@;
        let ghost view = m@;
        let ghost given = held@;
        let mut held = held;
        let mut r: Vec<(EndpointId, RecipientOutcome)> = Vec::new();
        let life: u128 = m.lifetime.as_nanos();
        let mut i: usize = 0;
        while i < m.recipients.len()
            invariant
                i <= m.recipients@.len(),
                start == old(self)@,
                view == m@,
                now <= LAST_MOMENT,
                life == m.lifetime@,
                life <= max_nanos(),
                given.len() == m.recipients@.len(),
                held@ == given.skip(i as int),
                self@ == placed_upto(start, view, given, i as nat, now),
                r@.len() == i,
                forall|j: int|
                    0 <= j < i ==> (#[trigger] outcome_views(r@)[j]) == first_outcomes(
                        start,
                        view,
                        given,
                        now,
                    )[j],
            decreases m.recipients@.len() - i,
        {
            let (peer, sub) = m.recipients[i];
            let ghost before = self@;
            let ghost had = r@;
            assert(view.recipients[i as int] == (peer@, sub@));
            let outcome = self.place_at(m, &peer);
            let (attached, memory) = held.remove(0);
            match &outcome {
                RecipientOutcome::Pending => {
                    if let Some(p) = self.peers.get(&peer) {
                        let pending = Pending {
                            recipient: p.reg.cert.clone(),
                            signed: slice_to_vec(m.signed.as_slice()),
                            envelope: m.envelope.clone(),
                            deadline: now + life,
                            next: now,
                            attempts: 0,
                            writing: false,
                            held: attached,
                            memory,
                        };
                        self.deliveries.pending.insert(
                            DeliveryKey { peer, sub, id: m.envelope.id.clone() },
                            pending,
                        );
                        self.stats.admitted = count_up(self.stats.admitted);
                    }
                },
                _ => {
                    self.stats.rejected = count_up(self.stats.rejected);
                },
            }
            assert(self@ =~= placed_one(before, view, (peer@, sub@), given[i as int], now));
            r.push((peer, outcome));
            proof {
                assert forall|j: int| 0 <= j < i + 1 implies (#[trigger] outcome_views(r@)[j])
                    == first_outcomes(start, view, given, now)[j] by {
                    if j < i {
                        assert(outcome_views(had)[j] == outcome_views(r@)[j]);
                    }
                }
            }
            i = i + 1;
        }
        assert(outcome_views(r@) =~= first_outcomes(start, view, given, now));
        r
    }
}

proof fn lemma_backlog_grows<H>(s: Seq<(DeliveryKeyView, PendingView<H>)>, n: int, peer: Seq<u8>)
    requires
        0 <= n <= s.len(),
    ensures
        backlog_bytes(s.take(n), peer) <= backlog_bytes(s, peer),
        backlog_messages(s.take(n), peer) <= backlog_messages(s, peer),
    decreases s.len() - n,
{
    if n == s.len() {
        assert(s.take(n) =~= s);
    } else {
        lemma_backlog_grows(s, n + 1, peer);
        assert(s.take(n + 1).drop_last() =~= s.take(n));
    }
}

// When messages are sent

/// The size of the frame that carries a message, with its prefix and its payload.
pub open spec fn frame_size<H>(session: Seq<u8>, sub: Seq<u8>, p: PendingView<H>) -> nat {
    data_bytes(session, sub, p.signed).len() + FRAME_PREFIX as nat + p.envelope.len as nat
}

/// Whether an attempt at a delivery is due. `clock` is what the clock says, if it says anything.
pub open spec fn attempt_due<H>(p: PendingView<H>, clock: Option<u64>, now: u128) -> bool {
    &&& !p.writing
    &&& p.next <= now
    &&& p.deadline > now
    &&& clock matches Some(t) ==> t < p.envelope.expires
}

/// By how much the wait after an attempt is longer than after the first: twice as long after each,
/// up to thirty-two times.
pub open spec fn backoff(attempts: u32) -> nat {
    if attempts <= 1 {
        1
    } else if attempts == 2 {
        2
    } else if attempts == 3 {
        4
    } else if attempts == 4 {
        8
    } else if attempts == 5 {
        16
    } else {
        32
    }
}

/// How long to wait after an attempt, in nanoseconds, where `jitter` was drawn for it.
pub open spec fn retry_wait(interval: nat, attempts: u32, jitter: u16) -> nat {
    let wait = interval * backoff(attempts);
    (if wait > max_nanos() {
        max_nanos()
    } else {
        wait
    }) + (jitter % 100) as nat * 1_000_000
}

/// A delivery with one more attempt under way.
pub open spec fn attempted<H>(
    p: PendingView<H>,
    interval: nat,
    now: u128,
    jitter: u16,
) -> PendingView<H> {
    let attempts = if p.attempts == u32::MAX {
        u32::MAX
    } else {
        (p.attempts + 1) as u32
    };
    PendingView {
        writing: true,
        attempts,
        next: (now + retry_wait(interval, attempts, jitter)) as u128,
        ..p
    }
}

/// The state after one delivery is looked at. Where it is due, it is written if the peer has
/// granted room for it; if no grant is there, one is asked for.
pub open spec fn scheduled_one<H>(
    v: OwnerView<H>,
    key: DeliveryKeyView,
    clock: Option<u64>,
    now: u128,
    jitter: u16,
) -> OwnerView<H> {
    let p = v.deliveries.pending[key];
    let topic = key.id.topic;
    if !attempt_due(p, clock, now) || !v.peers.contains_key(key.peer)
        || !v.peers[key.peer].outbound.contains_key(topic) {
        v
    } else {
        let peer = v.peers[key.peer];
        let b = peer.outbound[topic];
        let size = frame_size(peer.reg.session, key.sub, p);
        if b.sub != key.sub || b.mode != p.envelope.mode || size > usize::MAX {
            v
        } else {
            match b.credit {
                None => if b.requested {
                    v
                } else {
                    let asked = PeerView {
                        outbound: peer.outbound.insert(topic, BindingView { requested: true, ..b }),
                        ..peer
                    };
                    OwnerView {
                        peers: v.peers.insert(
                            key.peer,
                            told(
                                asked,
                                ControlView::RequestCredit {
                                    topic,
                                    sub: key.sub,
                                    bytes: size as u64,
                                },
                            ),
                        ),
                        ..v
                    }
                },
                Some(credit) => if size > credit || !b.room {
                    v
                } else {
                    let used = PeerView {
                        outbound: peer.outbound.insert(
                            topic,
                            BindingView { credit: None, room: false, ..b },
                        ),
                        ..peer
                    };
                    OwnerView {
                        peers: v.peers.insert(key.peer, used),
                        deliveries: DeliveriesView {
                            pending: v.deliveries.pending.insert(
                                key,
                                attempted(p, v.config.retry_interval, now, jitter),
                            ),
                            ..v.deliveries
                        },
                        writes: v.writes.push(key),
                        stats: Metrics {
                            retried: if p.attempts > 0 {
                                next_count(v.stats.retried)
                            } else {
                                v.stats.retried
                            },
                            ..v.stats
                        },
                        ..v
                    }
                },
            }
        }
    }
}

/// The state after the first `n` deliveries are looked at.
pub open spec fn scheduled_upto<H>(
    v: OwnerView<H>,
    n: nat,
    clock: Option<u64>,
    now: u128,
    jitters: Seq<u16>,
) -> OwnerView<H>
    decreases n,
{
    if n == 0 {
        v
    } else {
        scheduled_one(
            scheduled_upto(v, (n - 1) as nat, clock, now, jitters),
            delivery_list(v.deliveries.pending)[n - 1].0,
            clock,
            now,
            jitters[n - 1],
        )
    }
}

/// The state after all deliveries are looked at, in order.
pub open spec fn scheduled<H>(
    v: OwnerView<H>,
    clock: Option<u64>,
    now: u128,
    jitters: Seq<u16>,
) -> OwnerView<H> {
    scheduled_upto(v, delivery_list(v.deliveries.pending).len(), clock, now, jitters)
}

fn backoff_factor(attempts: u32) -> (n: u128)
    ensures
        n == backoff(attempts),
        1 <= n <= 32,
{
    if attempts <= 1 {
        1
    } else if attempts == 2 {
        2
    } else if attempts == 3 {
        4
    } else if attempts == 4 {
        8
    } else if attempts == 5 {
        16
    } else {
        32
    }
}

fn retry_delay(interval: &Duration, attempts: u32, jitter: u16) -> (n: u128)
    ensures
        n == retry_wait(interval@, attempts, jitter),
        n <= max_nanos() + 99_000_000,
{
    let factor: u128 = backoff_factor(attempts);
    let base: u128 = interval.as_nanos();
    proof {
        assert(base * factor <= max_nanos() * 32) by (nonlinear_arith)
            requires
                base <= max_nanos(),
                factor <= 32,
        ;
        assert(base * factor == interval@ * backoff(attempts));
    }
    let wait: u128 = base * factor;
    let longest: u128 = LAST_MOMENT;
    let wait: u128 = if wait > longest {
        longest
    } else {
        wait
    };
    wait + (jitter % 100) as u128 * 1_000_000
}

/// The size of a frame, if a number can tell it.
fn frame_len(session: &Id, sub: &Id, signed: &Vec<u8>, payload: usize) -> (n: Option<usize>)
    ensures
        ({
            let size = data_bytes(session@, sub@, signed@).len() + FRAME_PREFIX as nat
                + payload as nat;
            n == if size <= usize::MAX {
                Some(size as usize)
            } else {
                None
            }
        }),
{
    let metadata: usize = data(*session, *sub, signed.as_slice()).len();
    match metadata.checked_add(FRAME_PREFIX) {
        Some(n) => n.checked_add(payload),
        None => None,
    }
}

impl<H> Owner<H> {
    /// Looks at the `i`-th delivery.
    fn schedule_at(&mut self, i: usize, clock: Option<u64>, now: u128, jitter: u16)
        requires
            i < old(self).deliveries.pending.pairs().len(),
            now <= LAST_MOMENT,
        ensures
            final(self)@ == scheduled_one(
                old(self)@,
                old(self).deliveries.pending.pairs()[i as int].0,
                clock,
                now,
                jitter,
            ),
            final(self).deliveries.pending.pairs().len()
                == old(self).deliveries.pending.pairs().len(),
            forall|j: int|
                0 <= j < old(self).deliveries.pending.pairs().len() ==> (
                #[trigger] final(self).deliveries.pending.pairs()[j]).0
                    == old(self).deliveries.pending.pairs()[j].0,
    {
        let ghost start = self@;
        let ghost pairs = self.deliveries.pending.pairs();
        proof {
            use_type_invariant(&self.deliveries.pending);
            self.deliveries.pending.lemma_pairs();
        }
        let key = self.deliveries.pending.key_at(i).clone();
        let ghost view = pairs[i as int].1;
        let p = self.deliveries.pending.value_at(i);
        if p.writing || p.next > now || p.deadline <= now {
            return;
        }
        if let Some(t) = clock {
            if t >= p.envelope.expires {
                return;
            }
        }
        let peer = match self.peers.get_mut(&key.peer) {
            Some(peer) => peer,
            None => {
                return;
            },
        };
        let ghost before = peer@;
        proof {
            assert(start.peers.insert(key@.peer, before) =~= start.peers);
        }
        let size = frame_len(&peer.reg.session, &key.sub, &p.signed, p.envelope.len);
        let b = match peer.outbound.get_mut(&key.id.topic) {
            Some(b) => b,
            None => {
                return;
            },
        };
        proof {
            assert(before.outbound.insert(key@.id.topic, b@) =~= before.outbound);
        }
        if !same_bytes(&b.sub, &key.sub) || b.mode != p.envelope.mode {
            return;
        }
        let size = match size {
            Some(size) => size,
            None => {
                return;
            },
        };
        match b.credit {
            None => {
                if !b.requested {
                    b.requested = true;
                    peer.tell(
                        Control::RequestCredit {
                            topic: key.id.topic.clone(),
                            sub: key.sub,
                            bytes: size,
                        },
                    );
                }
            },
            Some(credit) => {
                if size > credit || !b.room {
                    return;
                }
                b.credit = None;
                b.room = false;
                let ghost old_writes = self.writes@;
                if p.attempts > 0 {
                    self.stats.retried = count_up(self.stats.retried);
                }
                let p = self.deliveries.pending.value_mut(i);
                p.writing = true;
                p.attempts = if p.attempts == u32::MAX {
                    u32::MAX
                } else {
                    p.attempts + 1
                };
                p.next = now + retry_delay(&self.config.retry_interval, p.attempts, jitter);
                self.writes.push(key);
                assert(key_views(self.writes@) =~= key_views(old_writes).push(key@));
            },
        }
    }

    /// Looks at all deliveries, in order: writes those that are due and that their peers have
    /// granted room for, and asks for room for the others that are due. `jitters` has a number
    /// drawn for each delivery.
    pub fn schedule_with(&mut self, clock: Option<u64>, now: u128, jitters: &Vec<u16>)
        requires
            jitters@.len() >= delivery_list(old(self)@.deliveries.pending).len(),
            now <= LAST_MOMENT,
        ensures
            final(self)@ == scheduled(old(self)@, clock, now, jitters@),
    {
        let ghost start = self@;
        let ghost pairs = self.deliveries.pending.pairs();
        let mut i: usize = 0;
        proof {
            use_type_invariant(&self.deliveries.pending);
            self.deliveries.pending.lemma_pairs();
        }
        while i < self.deliveries.pending.len()
            invariant
                i <= self.deliveries.pending.pairs().len(),
                start == old(self)@,
                now <= LAST_MOMENT,
                pairs == delivery_list(start.deliveries.pending),
                jitters@.len() >= pairs.len(),
                self.deliveries.pending.pairs().len() == pairs.len(),
                forall|j: int|
                    0 <= j < pairs.len() ==> (#[trigger] self.deliveries.pending.pairs()[j]).0
                        == pairs[j].0,
                self@ == scheduled_upto(start, i as nat, clock, now, jitters@),
            decreases pairs.len() - i,
        {
            self.schedule_at(i, clock, now, jitters[i]);
            i = i + 1;
        }
    }

    /// Notes whether the writer of a subscription has room for a frame.
    pub fn note_room(&mut self, peer: &EndpointId, topic: &Topic, room: bool)
        ensures
            final(self)@ == with_room(old(self)@, peer@, topic@, room),
    {
        if let Some(p) = self.peers.get_mut(peer) {
            let ghost before = p@;
            if let Some(b) = p.outbound.get_mut(topic) {
                b.room = room;
            } else {
                assert(old(self)@.peers.insert(peer@, before) =~= old(self)@.peers);
            }
        }
    }
}

/// The state where it is known whether the writer of a subscription has room for a frame.
pub open spec fn with_room<H>(
    v: OwnerView<H>,
    peer: Seq<u8>,
    topic: Seq<char>,
    room: bool,
) -> OwnerView<H> {
    if v.peers.contains_key(peer) && v.peers[peer].outbound.contains_key(topic) {
        let p = v.peers[peer];
        let b = BindingView { room, ..p.outbound[topic] };
        OwnerView {
            peers: v.peers.insert(peer, PeerView { outbound: p.outbound.insert(topic, b), ..p }),
            ..v
        }
    } else {
        v
    }
}

// What comes of sending

/// The state after an attempt at a delivery is over.
pub open spec fn after_sent<H>(
    v: OwnerView<H>,
    key: DeliveryKeyView,
    session: Seq<u8>,
    result: Result<(), Error>,
    now: u128,
) -> OwnerView<H> {
    if v.peers.contains_key(key.peer) && v.peers[key.peer].reg.session == session
        && v.deliveries.pending.contains_key(key) {
        let p = v.deliveries.pending[key];
        let w = OwnerView {
            deliveries: DeliveriesView {
                pending: v.deliveries.pending.insert(key, PendingView { writing: false, ..p }),
                ..v.deliveries
            },
            ..v
        };
        if p.envelope.mode == DeliveryMode::BestEffort {
            after_end(
                w,
                key,
                match result {
                    Ok(_) => RecipientOutcome::Sent,
                    Err(e) => RecipientOutcome::Failed(e),
                },
            )
        } else {
            match result {
                Ok(_) => w,
                Err(Error::SubscriptionClosed) => after_end(
                    w,
                    key,
                    RecipientOutcome::Failed(Error::SubscriptionClosed),
                ),
                Err(_) => without_peer(w, key.peer, now),
            }
        }
    } else {
        v
    }
}

/// What ends the deliveries of a message that is called off.
pub open spec fn ending_cancelled<H>(id: MessageIdView) -> Ending<H> {
    |k: DeliveryKeyView, p: PendingView<H>|
        if k.id == id {
            Some(RecipientOutcome::Cancelled)
        } else {
            None
        }
}

/// The endpoint after a message was called off.
pub open spec fn cancelled<H>(v: OwnerView<H>, id: MessageIdView) -> OwnerView<H> {
    OwnerView {
        deliveries: after_ending(v.deliveries, ending_cancelled(id), grace_of(v.config)),
        ..v
    }
}

impl<H> Owner<H> {
    /// Takes in how an attempt at a delivery went.
    pub fn sent(
        &mut self,
        key: &DeliveryKey,
        session: &Id,
        result: Result<(), Error>,
        now: u128,
    )
        ensures
            final(self)@ == after_sent(old(self)@, key@, session@, result, now),
    {
        let current = match self.peers.get(&key.peer) {
            Some(p) => same_bytes(&p.reg.session, session),
            None => false,
        };
        if !current {
            return;
        }
        let grace = self.grace();
        let mode = match self.deliveries.pending.get_mut(key) {
            Some(p) => {
                p.writing = false;
                p.envelope.mode
            },
            None => {
                return;
            },
        };
        if mode == DeliveryMode::BestEffort {
            let outcome = match result {
                Ok(()) => RecipientOutcome::Sent,
                Err(e) => RecipientOutcome::Failed(e),
            };
            self.deliveries.end(key, outcome, grace);
        } else {
            match result {
                Ok(()) => {},
                Err(Error::SubscriptionClosed) => {
                    self.deliveries.end(
                        key,
                        RecipientOutcome::Failed(Error::SubscriptionClosed),
                        grace,
                    );
                },
                Err(_) => {
                    self.remove_peer(&key.peer, now);
                },
            }
        }
    }

    /// Calls a message off, wherever it is still on its way.
    pub fn cancel(&mut self, id: &MessageId)
        ensures
            final(self)@ == (OwnerView {
                deliveries: after_ending(
                    old(self)@.deliveries,
                    ending_cancelled(id@),
                    grace_of(old(self)@.config),
                ),
                ..old(self)@
            }),
            final(self)@ == cancelled(old(self)@, id@),
    {
        let grace = self.grace();
        let call_off = |k: &DeliveryKey, p: &Pending<H>| -> (o: Option<RecipientOutcome>)
            ensures
                o == ending_cancelled(id@)(k@, p@),
            {
                match compare_messages(&k.id, id) {
                    Relation::Same => Some(RecipientOutcome::Cancelled),
                    _ => None,
                }
            };
        self.deliveries.end_each(call_off, grace, Ghost(ending_cancelled(id@)));
    }
}

} // verus!
