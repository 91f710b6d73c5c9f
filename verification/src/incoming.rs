//! Messages that come in: which frames are taken, and which messages are handled.
use crate::auth::{claims_allow, saturating_sum};
use crate::crypto::{digest, sha256, EndpointId, Id};
use crate::deliveries::{RecordKey, RecordKeyView};
use crate::endpoint::{Disposition, FRAME_PREFIX};
use crate::error::Error;
use crate::message::{
    describes, signed_envelope_of, Envelope, EnvelopeView, MessageId, MessageIdView,
};
use crate::octets::same_bytes;
use crate::owner::{
    payload_too_large, told, valid_peer, without_peer, Owner, OwnerView, PeerView, Record,
    RecordState, RecordView, Stream, SubscriptionView,
};
use crate::wire::{data, data_bytes, Control, ControlView};
use vstd::prelude::*;

verus! {

/// A frame that may come in, as a value.
#[verifier::ext_equal]
pub struct TicketView<H> {
    pub envelope: EnvelopeView,
    pub fingerprint: Seq<u8>,
    pub keep: nat,
    pub held: H,
}

/// A frame that may come in: what it holds, and the room that was set aside for it.
pub struct Ticket<H> {
    pub envelope: Envelope,
    pub fingerprint: [u8; 32],
    /// How much of the memory for metadata that was set aside is kept for the message.
    pub keep: usize,
    pub held: H,
}

impl<H> View for Ticket<H> {
    type V = TicketView<H>;

    open spec fn view(&self) -> TicketView<H> {
        TicketView {
            envelope: self.envelope@,
            fingerprint: self.fingerprint@,
            keep: self.keep as nat,
            held: self.held,
        }
    }
}

/// What a result says of a ticket.
pub open spec fn ticket_outcome<H>(r: Result<Ticket<H>, Error>) -> Result<TicketView<H>, Error> {
    match r {
        Ok(t) => Ok(t@),
        Err(e) => Err(e),
    }
}

/// The state with the stream noted that a peer sends a topic on.
pub open spec fn with_stream<H>(
    v: OwnerView<H>,
    peer: Seq<u8>,
    topic: Seq<char>,
    sub: Seq<u8>,
    stream: u64,
) -> OwnerView<H> {
    let p = v.peers[peer];
    OwnerView {
        peers: v.peers.insert(
            peer,
            PeerView { inbound: p.inbound.insert(topic, (sub, stream)), ..p },
        ),
        ..v
    }
}

/// The state with the grant of a peer used up.
pub open spec fn grant_used<H>(v: OwnerView<H>, peer: Seq<u8>, topic: Seq<char>) -> OwnerView<H> {
    let s = v.subscriptions[topic];
    OwnerView {
        subscriptions: v.subscriptions.insert(
            topic,
            SubscriptionView { grants: s.grants.remove(peer), ..s },
        ),
        ..v
    }
}

/// Why a message cannot be taken whatever stream it comes on, if it cannot. `t` is the time.
pub open spec fn envelope_refusal<H>(
    v: OwnerView<H>,
    p: PeerView<H>,
    e: EnvelopeView,
    len: nat,
    t: u64,
) -> Option<Error> {
    if e.id.realm_id != v.config.trust.realm || !claims_allow(
        p.reg.cert.claims,
        e.id.topic,
        true,
    ) || !claims_allow(v.cert.claims, e.id.topic, false) {
        Some(Error::Unauthorized)
    } else if e.len != len || len > v.config.max_payload || payload_too_large(
        v.cert.claims.limits,
        len,
    ) || payload_too_large(p.reg.cert.claims.limits, len) {
        Some(Error::MessageTooLarge)
    } else if e.created > saturating_sum(t, v.config.trust.clock_skew_secs) || e.expires
        - e.created > v.config.delivery_window / 1_000_000_000 {
        Some(Error::DeliveryExpired)
    } else {
        None
    }
}

/// Why a message cannot be taken on a stream, if it cannot.
pub open spec fn stream_refusal<H>(
    v: OwnerView<H>,
    p: PeerView<H>,
    topic: Seq<char>,
    sub: Seq<u8>,
    stream: u64,
) -> Option<Error> {
    if p.inbound.contains_key(topic) && p.inbound[topic].0 == sub && p.inbound[topic].1 != stream {
        Some(Error::Protocol("multiple streams for a topic binding"))
    } else if !p.inbound.contains_key(topic) && p.inbound.dom().len() >= v.config.max_topics {
        Some(Error::QueueFull)
    } else {
        None
    }
}

/// Why a message cannot be taken for a subscription, if it cannot.
pub open spec fn binding_refusal<H>(
    v: OwnerView<H>,
    peer: Seq<u8>,
    sub: Seq<u8>,
    e: EnvelopeView,
) -> Option<Error> {
    if !v.subscriptions.contains_key(e.id.topic) {
        Some(Error::SubscriptionClosed)
    } else {
        let s = v.subscriptions[e.id.topic];
        if s.id != sub || s.mode != e.mode || !s.confirmed.contains(peer) {
            Some(Error::Unauthorized)
        } else if !s.grants.contains_key(peer) {
            Some(Error::Protocol("DATA without credit"))
        } else {
            None
        }
    }
}

/// What comes of a frame that announces itself: `signed` is its envelope and `len` the length of
/// its payload.
pub open spec fn after_begin<H>(
    v: OwnerView<H>,
    peer: Seq<u8>,
    session: Seq<u8>,
    sub: Seq<u8>,
    stream: u64,
    signed: Seq<u8>,
    len: nat,
    clock: Option<u64>,
) -> (OwnerView<H>, Result<TicketView<H>, Error>) {
    match valid_peer(v, peer, session, clock) { Err(e) => (v, Err(e)), Ok(t) =>
    match signed_envelope_of(signed, peer) { Err(e) => (v, Err(e)), Ok(e) => {
        let p = v.peers[peer];
        let topic = e.id.topic;
        match envelope_refusal(v, p, e, len, t) { Some(error) => (v, Err(error)), None =>
        match stream_refusal(v, p, topic, sub, stream) { Some(error) => (v, Err(error)), None => {
            let w = with_stream(v, peer, topic, sub, stream);
            match binding_refusal(v, peer, sub, e) { Some(error) => (w, Err(error)), None => {
                let x = grant_used(w, peer, topic);
                let size = len + data_bytes(session, sub, signed).len() + FRAME_PREFIX;
                let record = RecordKeyView { sub, id: e.id };
                if size > v.subscriptions[topic].grants[peer].bytes {
                    (x, Err(Error::Protocol("DATA exceeds credit")))
                } else if v.records.contains_key(record) && v.records[record].fingerprint
                    != sha256(signed) {
                    (x, Err(Error::Protocol("conflicting message identity")))
                } else {
                    (
                        x,
                        Ok(
                            TicketView {
                                envelope: e,
                                fingerprint: sha256(signed),
                                keep: signed.len() + 2048,
                                held: v.subscriptions[topic].grants[peer].held,
                            },
                        ),
                    )
                }
            } }
        } } }
    } } }
}

/// The state after a peer is told what became of a message.
pub open spec fn outcome_told<H>(
    v: OwnerView<H>,
    peer: Seq<u8>,
    sub: Seq<u8>,
    id: MessageIdView,
    code: u64,
) -> OwnerView<H> {
    if v.peers.contains_key(peer) {
        OwnerView {
            peers: v.peers.insert(
                peer,
                told(
                    v.peers[peer],
                    ControlView::Outcome {
                        topic: id.topic,
                        sub,
                        epoch: id.publisher_epoch,
                        sequence: id.sequence,
                        code,
                    },
                ),
            ),
            ..v
        }
    } else {
        v
    }
}

/// What is to be done with a message that has come in whole.
#[derive(Clone, Copy, Debug, PartialEq, Eq, Structural)]
pub enum Arrival {
    /// A handler gets it.
    Handle,
    /// The publisher is told that it is processed, or refused for good, or to try again.
    Tell(u64),
    /// Nothing: a handler has it already.
    Ignore,
}

/// What is to be done with a message that has come in whole, or how it is out of order. `room`
/// says whether its subscription has room for it.
pub open spec fn arrival<H>(
    v: OwnerView<H>,
    peer: Seq<u8>,
    session: Seq<u8>,
    sub: Seq<u8>,
    ticket: TicketView<H>,
    payload: Seq<u8>,
    room: bool,
    clock: Option<u64>,
) -> Result<Arrival, Error> {
    let e = ticket.envelope;
    let record = RecordKeyView { sub, id: e.id };
    match valid_peer(v, peer, session, clock) {
        Err(e) => Err(e),
        Ok(t) => if !describes(e, payload) {
            Err(Error::Protocol("payload digest"))
        } else if t >= e.expires || !v.subscriptions.contains_key(e.id.topic)
            || v.subscriptions[e.id.topic].id != sub {
            Ok(Arrival::Tell(2))
        } else if v.records.contains_key(record) && v.records[record].fingerprint
            != ticket.fingerprint {
            Err(Error::Protocol("conflicting message identity"))
        } else if v.records.contains_key(record) && v.records[record].state is Processed {
            Ok(Arrival::Tell(0))
        } else if v.records.contains_key(record) && v.records[record].state is Permanent {
            Ok(Arrival::Tell(2))
        } else if v.records.contains_key(record) && v.records[record].state is Processing {
            Ok(Arrival::Ignore)
        } else if room {
            Ok(Arrival::Handle)
        } else {
            Ok(Arrival::Tell(1))
        },
    }
}

/// The state after a message has come in whole. `waiter` waits to be told that a handler's verdict
/// counts.
pub open spec fn after_arrival<H>(
    v: OwnerView<H>,
    peer: Seq<u8>,
    sub: Seq<u8>,
    ticket: TicketView<H>,
    a: Arrival,
    waiter: H,
) -> OwnerView<H> {
    let e = ticket.envelope;
    let record = RecordKeyView { sub, id: e.id };
    match a {
        Arrival::Ignore => v,
        Arrival::Handle => OwnerView {
            records: v.records.insert(
                record,
                RecordView {
                    fingerprint: ticket.fingerprint,
                    expires: e.expires,
                    state: RecordState::Processing(Disposition::Open),
                    memory: ticket.held,
                    waiter: Some(waiter),
                },
            ),
            ..v
        },
        Arrival::Tell(code) => {
            let w = outcome_told(v, peer, sub, e.id, code);
            if code == 1 {
                OwnerView {
                    records: v.records.insert(
                        record,
                        RecordView {
                            fingerprint: ticket.fingerprint,
                            expires: e.expires,
                            state: RecordState::Retryable,
                            memory: ticket.held,
                            waiter: None,
                        },
                    ),
                    ..w
                }
            } else {
                w
            }
        },
    }
}

impl<H> Owner<H> {
    /// Whether a frame may come in: `signed` is its envelope and `len` the length of its payload.
    /// What was set aside for it goes with the ticket.
    pub fn begin(
        &mut self,
        peer: &EndpointId,
        session: &Id,
        sub: &Id,
        stream: u64,
        signed: &[u8],
        len: usize,
        clock: Option<u64>,
    ) -> (r: Result<Ticket<H>, Error>)
        ensures
            (final(self)@, ticket_outcome(r)) == after_begin(
                old(self)@,
                peer@,
                session@,
                sub@,
                stream,
                signed@,
                len as nat,
                clock,
            ),
    {
        let ghost start = self@;
        let now = self.peer_valid(peer, session, clock)?;
        let envelope = Envelope::verify(signed, *peer)?;
        let skew = self.config.trust.clock_skew();
        let realm = self.config.trust.realm_id();
        let ceiling = self.cert.limits().max_payload;
        let window = self.config.delivery_window.as_secs();
        let allowed = self.cert.allows(&envelope.id.topic, false);
        let p = match self.peers.get_mut(peer) {
            Some(p) => p,
            None => return Err(Error::PeerUnavailable),
        };
        let ghost before = p@;
        proof {
            assert(start.peers.insert(peer@, before) =~= start.peers);
        }
        if !same_bytes(&envelope.id.realm_id, &realm) || !p.reg.cert.allows(
            &envelope.id.topic,
            true,
        ) || !allowed {
            return Err(Error::Unauthorized);
        }
        let remote = p.reg.cert.limits().max_payload;
        if envelope.len != len || len > self.config.max_payload || (ceiling != 0 && len as u64
            > ceiling) || (remote != 0 && len as u64 > remote) {
            return Err(Error::MessageTooLarge);
        }
        if envelope.created > now.saturating_add(skew) || envelope.expires - envelope.created
            > window {
            return Err(Error::DeliveryExpired);
        }
        match p.inbound.get(&envelope.id.topic) {
            Some(known) => {
                if same_bytes(&known.sub, sub) && known.stream != stream {
                    return Err(Error::Protocol("multiple streams for a topic binding"));
                }
            },
            None => {
                if p.inbound.len() >= self.config.max_topics {
                    return Err(Error::QueueFull);
                }
            },
        }
        p.inbound.insert(envelope.id.topic.clone(), Stream { sub: *sub, stream });
        let ghost noted = with_stream(start, peer@, envelope@.id.topic, sub@, stream);
        let local = match self.subscriptions.get_mut(&envelope.id.topic) {
            Some(local) => local,
            None => return Err(Error::SubscriptionClosed),
        };
        let ghost topic = envelope@.id.topic;
        let ghost had = local@;
        proof {
            assert(start.subscriptions.insert(topic, had) =~= start.subscriptions);
        }
        if !same_bytes(&local.id, sub) || local.mode != envelope.mode
            || !local.confirmed.contains_key(peer) {
            return Err(Error::Unauthorized);
        }
        let grant = match local.grants.remove(peer) {
            Some(grant) => grant,
            None => {
                assert(local@ =~= had);
                return Err(Error::Protocol("DATA without credit"));
            },
        };
        let metadata: usize = data(*session, *sub, signed).len();
        let size: u128 = len as u128 + metadata as u128 + FRAME_PREFIX as u128;
        if size > grant.bytes as u128 {
            return Err(Error::Protocol("DATA exceeds credit"));
        }
        let fingerprint = digest(signed);
        let record = RecordKey { sub: *sub, id: envelope.id.clone() };
        if let Some(known) = self.records.get(&record) {
            if !same_bytes(&known.fingerprint, &fingerprint) {
                return Err(Error::Protocol("conflicting message identity"));
            }
        }
        let keep: usize = signed.len() + 2048;
        Ok(Ticket { envelope, fingerprint, keep, held: grant.held })
    }

    /// Tells a peer what became of a message.
    pub(crate) fn tell_outcome(&mut self, peer: &EndpointId, sub: &Id, id: &MessageId, code: u64)
        ensures
            final(self)@ == outcome_told(old(self)@, peer@, sub@, id@, code),
    {
        if let Some(p) = self.peers.get_mut(peer) {
            p.tell(
                Control::Outcome {
                    topic: id.topic.clone(),
                    sub: *sub,
                    epoch: id.publisher_epoch,
                    sequence: id.sequence,
                    code,
                },
            );
        }
    }

    /// What is to be done with a message that has come in whole, or how it is out of order.
    pub fn review_arrival(
        &self,
        peer: &EndpointId,
        session: &Id,
        sub: &Id,
        ticket: &Ticket<H>,
        payload: &[u8],
        room: bool,
        clock: Option<u64>,
    ) -> (r: Result<Arrival, Error>)
        ensures
            r == arrival(
                self@,
                peer@,
                session@,
                sub@,
                ticket@,
                payload@,
                room,
                clock,
            ),
    {
        let now = self.peer_valid(peer, session, clock)?;
        let e = &ticket.envelope;
        if !e.payload_matches(payload) {
            return Err(Error::Protocol("payload digest"));
        }
        let current = match self.subscriptions.get(&e.id.topic) {
            Some(local) => same_bytes(&local.id, sub),
            None => false,
        };
        if now >= e.expires || !current {
            return Ok(Arrival::Tell(2));
        }
        let key = RecordKey { sub: *sub, id: e.id.clone() };
        if let Some(known) = self.records.get(&key) {
            if !same_bytes(&known.fingerprint, &ticket.fingerprint) {
                return Err(Error::Protocol("conflicting message identity"));
            }
            match known.state {
                RecordState::Processed => return Ok(Arrival::Tell(0)),
                RecordState::Permanent => return Ok(Arrival::Tell(2)),
                RecordState::Processing(_) => return Ok(Arrival::Ignore),
                RecordState::Retryable => {},
            }
        }
        if room {
            Ok(Arrival::Handle)
        } else {
            Ok(Arrival::Tell(1))
        }
    }

    /// Takes in a message that has come in whole. Where a handler gets it, `waiter` is told
    /// when the handler's verdict counts. The error says how the message was out of order.
    pub fn incoming(
        &mut self,
        peer: &EndpointId,
        session: &Id,
        sub: &Id,
        ticket: Ticket<H>,
        payload: &[u8],
        room: bool,
        waiter: H,
        clock: Option<u64>,
    ) -> (r: Result<Arrival, Error>)
        ensures
            r == arrival(
                old(self)@,
                peer@,
                session@,
                sub@,
                ticket@,
                payload@,
                room,
                clock,
            ),
            final(self)@ == match r {
                Ok(a) => after_arrival(old(self)@, peer@, sub@, ticket@, a, waiter),
                Err(_) => old(self)@,
            },
    {
        let a = self.review_arrival(peer, session, sub, &ticket, payload, room, clock)?;
        let Ticket { envelope, fingerprint, keep, held } = ticket;
        let expires = envelope.expires;
        match a {
            Arrival::Ignore => {},
            Arrival::Handle => {
                self.records.insert(
                    RecordKey { sub: *sub, id: envelope.id },
                    Record {
                        fingerprint,
                        expires,
                        state: RecordState::Processing(Disposition::Open),
                        memory: held,
                        waiter: Some(waiter),
                    },
                );
            },
            Arrival::Tell(code) => {
                self.tell_outcome(peer, sub, &envelope.id, code);
                if code == 1 {
                    self.records.insert(
                        RecordKey { sub: *sub, id: envelope.id },
                        Record {
                            fingerprint,
                            expires,
                            state: RecordState::Retryable,
                            memory: held,
                            waiter: None,
                        },
                    );
                }
            },
        }
        Ok(a)
    }

    /// Takes in a message that has come in whole. A peer whose message is out of order is let go;
    /// the result is what is to be done with any other.
    pub fn receive(
        &mut self,
        peer: &EndpointId,
        session: &Id,
        sub: &Id,
        ticket: Ticket<H>,
        payload: &[u8],
        room: bool,
        waiter: H,
        clock: Option<u64>,
        now: u128,
    ) -> (r: Option<Arrival>)
        ensures
            match arrival(
                old(self)@,
                peer@,
                session@,
                sub@,
                ticket@,
                payload@,
                room,
                clock,
            ) {
                Ok(a) => r == Some(a) && final(self)@ == after_arrival(
                    old(self)@,
                    peer@,
                    sub@,
                    ticket@,
                    a,
                    waiter,
                ),
                Err(_) => r is None && final(self)@ == without_peer(old(self)@, peer@, now),
            },
            (final(self)@, r) == received(
                old(self)@,
                peer@,
                session@,
                sub@,
                ticket@,
                payload@,
                room,
                waiter,
                clock,
                now,
            ),
    {
        match self.incoming(peer, session, sub, ticket, payload, room, waiter, clock) {
            Ok(a) => Some(a),
            Err(_) => {
                self.remove_peer(peer, now);
                None
            },
        }
    }

    /// Notes what a handler said of a message.
    pub fn note_disposition(&mut self, key: &RecordKey, said: Disposition)
        ensures
            final(self)@ == with_disposition(old(self)@, key@, said),
    {
        if let Some(r) = self.records.get_mut(key) {
            let ghost before = r@;
            match r.state {
                RecordState::Processing(_) => {
                    r.state = RecordState::Processing(said);
                },
                _ => {
                    assert(old(self)@.records.insert(key@, before) =~= old(self)@.records);
                },
            }
        }
    }
}

/// What comes of a message that has come in whole: the endpoint after it, and what is to be done with
/// it, unless it was out of order.
pub open spec fn received<H>(
    v: OwnerView<H>,
    peer: Seq<u8>,
    session: Seq<u8>,
    sub: Seq<u8>,
    ticket: TicketView<H>,
    payload: Seq<u8>,
    room: bool,
    waiter: H,
    clock: Option<u64>,
    now: u128,
) -> (OwnerView<H>, Option<Arrival>) {
    match arrival(v, peer, session, sub, ticket, payload, room, clock) {
        Ok(a) => (after_arrival(v, peer, sub, ticket, a, waiter), Some(a)),
        Err(_) => (without_peer(v, peer, now), None),
    }
}

/// The state where it is known what a handler said of a message.
pub open spec fn with_disposition<H>(
    v: OwnerView<H>,
    key: RecordKeyView,
    said: Disposition,
) -> OwnerView<H> {
    if v.records.contains_key(key) && v.records[key].state is Processing {
        OwnerView {
            records: v.records.insert(
                key,
                RecordView { state: RecordState::Processing(said), ..v.records[key] },
            ),
            ..v
        }
    } else {
        v
    }
}

} // verus!
