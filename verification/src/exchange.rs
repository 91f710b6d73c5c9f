//! What passes between an endpoint and its peers: what a message says, when it is put on its way
//! and when it is tried again, and what each record that comes in does.
use crate::auth::{claims_allow, trust_check};
use crate::control::{after_control, after_offence, after_remote};
use crate::cose::{container, signed_bytes};
use crate::credits::{after_queue, queue, waiting, with_grant};
use crate::crypto::{public_key, sha256, signature, EndpointId};
use crate::deliveries::{DeliveryKey, DeliveryKeyView, PendingView, RecordKeyView};
use crate::effects::{ended_as, untouched};
use crate::endpoint::{Disposition, Metrics, RecipientOutcome};
use crate::error::Error;
use crate::incoming::{after_arrival, after_begin, arrival, with_disposition, Arrival, TicketView};
use crate::laws::law_published_to_the_eligible;
use crate::message::{
    describes, envelope_bytes, message_context, signed_envelope_of, DeliveryMode, EnvelopeView,
    MessageIdView, Topic,
};
use crate::ordered::{lemma_listing_exists, lemma_pairs_map_index, listing, pairs_map, Key};
use crate::outgoing::{
    after_numbering, after_sent, backlog_bytes, backlog_messages, delivery_list, last_sequence,
    placed_one, placed_upto, placing, recipients, scheduled, scheduled_one, scheduled_upto,
    with_room, PublicationView,
};
use crate::owner::{
    grace_of, valid_peer, valid_time, without_peer, BindingView, CreditView, OwnerView, PeerView,
    RecordState, RecordView, SessionView, SubscriptionView,
};
use crate::wire::{data_bytes, ControlView};
use vstd::arithmetic::power2::{lemma2_to64, pow2};
use vstd::prelude::*;
use vstd::utf8::encode_utf8;

verus! {

// Publishing

/// What is signed and sent is what was asked for: the envelope has the publisher's format and mode,
/// was made at the time of publishing and lasts for the whole seconds of the lifetime, and
/// describes the payload. It names the realm, the publisher, its run and the number after the last
/// one on the topic. That this number is used is all that changes.
pub proof fn law_message_is_as_asked<H>(
    v: OwnerView<H>,
    topic: Seq<char>,
    payload: Seq<u8>,
    mode: DeliveryMode,
    lifetime: nat,
    format: Seq<char>,
    clock: Option<u64>,
)
    requires
        payload.len() <= u64::MAX,
    ensures
        ({
            let (w, r) = after_numbering(v, topic, payload, mode, lifetime, format, clock);
            r matches Ok(m) ==> {
                let e = m.envelope;
                &&& e.format == format
                &&& e.mode == mode
                &&& clock == Some(e.created)
                &&& e.expires == e.created + lifetime / 1_000_000_000
                &&& e.len == payload.len()
                &&& e.digest == sha256(payload)
                &&& e.id.realm_id == v.config.trust.realm
                &&& e.id.publisher_endpoint_id == public_key(v.secret)
                &&& e.id.publisher_epoch == v.epoch
                &&& e.id.topic == topic
                &&& v.sequences.contains_key(topic) ==> e.id.sequence == v.sequences[topic] + 1
                &&& !v.sequences.contains_key(topic) ==> e.id.sequence == 1
                &&& m.signed == container(
                    envelope_bytes(e),
                    signature(v.secret, signed_bytes(envelope_bytes(e), message_context())),
                )
                &&& m.lifetime == lifetime
                &&& w.sequences == v.sequences.insert(topic, e.id.sequence)
                &&& w == (OwnerView { sequences: w.sequences, ..v })
            }
        }),
{
}

/// When a message can be published, and what stops it: the endpoint is certified and not shutting
/// down, its certificate lets it publish to the topic, the payload is within the endpoint's limit
/// and the certificate's, where there is one, the lifetime is a second at least and within the
/// delivery window, the format is short, someone is there to get it, and a topic that is new does
/// not exceed the number of topics.
pub proof fn law_publishing_needs_permission<H>(
    v: OwnerView<H>,
    topic: Seq<char>,
    payload: Seq<u8>,
    mode: DeliveryMode,
    lifetime: nat,
    format: Seq<char>,
    clock: Option<u64>,
)
    ensures
        ({
            let (w, r) = after_numbering(v, topic, payload, mode, lifetime, format, clock);
            let n = payload.len();
            let most = v.cert.claims.limits.max_payload;
            let small = n <= v.config.max_payload && (most == 0 || n <= most);
            let sound = lifetime >= 1_000_000_000 && lifetime <= v.config.delivery_window
                && encode_utf8(format).len() <= 256;
            let may = claims_allow(v.cert.claims, topic, true);
            let room = v.sequences.contains_key(topic) || v.sequences.dom().len()
                < v.config.max_topics;
            match valid_time(v, clock) {
                Err(e) => w == v && r == Err::<PublicationView, Error>(e),
                Ok(t) => {
                    let heard = recipients(
                        v,
                        listing::<EndpointId, PeerView<H>>(v.peers),
                        topic,
                        mode,
                        t,
                    ).len() > 0;
                    let ready = v.drain is None && may && small && sound && heard && room;
                    &&& r is Ok <==> ready && last_sequence(v, topic) < u64::MAX && t + lifetime
                        / 1_000_000_000 <= u64::MAX
                    &&& v.drain is Some ==> r == Err::<PublicationView, Error>(Error::ShuttingDown)
                    &&& v.drain is None && !may ==> r == Err::<PublicationView, Error>(
                        Error::Unauthorized,
                    )
                    &&& v.drain is None && may && !small ==> r == Err::<PublicationView, Error>(
                        Error::MessageTooLarge,
                    )
                    &&& v.drain is None && may && small && !sound ==> r == Err::<
                        PublicationView,
                        Error,
                    >(Error::Config("publication lifetime or format"))
                    &&& v.drain is None && may && small && sound && !heard ==> r == Err::<
                        PublicationView,
                        Error,
                    >(Error::NoSubscribers)
                    &&& v.drain is None && may && small && sound && heard && !room ==> r == Err::<
                        PublicationView,
                        Error,
                    >(Error::QueueFull)
                    &&& ready && last_sequence(v, topic) == u64::MAX ==> r == Err::<
                        PublicationView,
                        Error,
                    >(Error::Config("sequence exhausted"))
                    &&& !ready || last_sequence(v, topic) == u64::MAX ==> w == v
                },
            }
        }),
{
}

/// A message goes to exactly those peers that have subscribed to its topic in its mode, that still
/// give deliveries time, and whose certificates are good.
pub proof fn law_message_goes_to_subscribers<H>(
    v: OwnerView<H>,
    topic: Seq<char>,
    payload: Seq<u8>,
    mode: DeliveryMode,
    lifetime: nat,
    format: Seq<char>,
    t: u64,
)
    requires
        v.peers.dom().finite(),
    ensures
        after_numbering(v, topic, payload, mode, lifetime, format, Some(t)).1 matches Ok(m) ==> {
            forall|to: (Seq<u8>, Seq<u8>)| #[trigger]
                m.recipients.contains(to) <==> {
                    &&& v.peers.contains_key(to.0)
                    &&& v.peers[to.0].outbound.contains_key(topic)
                    &&& v.peers[to.0].outbound[topic].sub == to.1
                    &&& v.peers[to.0].outbound[topic].mode == mode
                    &&& v.peers[to.0].reg.window_secs > 0
                    &&& trust_check(v.config.trust, v.peers[to.0].reg.cert.claims, to.0, t) is Ok
                }
        },
{
    law_published_to_the_eligible(v, topic, payload, mode, lifetime, format, t);
}

/// When a message is put on its way to a peer, and why not: the peer is there, it takes payloads of
/// this size, and its certificate does where it sets a limit, it gives deliveries the time that the
/// message has, and the backlog for it stays within the limits.
pub proof fn law_message_is_put_on_its_way<H>(v: OwnerView<H>, m: PublicationView, peer: Seq<u8>)
    ensures
        ({
            let r = placing(v, m, peer);
            let p = v.peers[peer];
            let all = delivery_list(v.deliveries.pending);
            let most = p.reg.cert.claims.limits.max_payload;
            let small = m.envelope.len <= p.reg.max_payload && (most == 0 || m.envelope.len <= most);
            let timely = m.lifetime / 1_000_000_000 <= p.reg.window_secs;
            let room = backlog_messages(all, peer) < v.config.per_peer_messages && backlog_bytes(
                all,
                peer,
            ) + m.envelope.len + m.signed.len() + 256 <= v.config.per_peer_bytes;
            &&& r is Pending <==> v.peers.contains_key(peer) && small && timely && room
            &&& !v.peers.contains_key(peer) ==> r == RecipientOutcome::Rejected(
                Error::PeerUnavailable,
            )
            &&& v.peers.contains_key(peer) && !small ==> r == RecipientOutcome::Rejected(
                Error::MessageTooLarge,
            )
            &&& v.peers.contains_key(peer) && small && !timely ==> r == RecipientOutcome::Rejected(
                Error::Config("delivery window exceeds peer limit"),
            )
            &&& v.peers.contains_key(peer) && small && timely && !room ==> r
                == RecipientOutcome::Rejected(Error::QueueFull)
        }),
{
}

/// A delivery that is put on its way carries the message as it was signed, is due at once, has not
/// been attempted, and lasts for the lifetime of the message from now. It counts as admitted; one
/// that is not put on its way counts as rejected and leaves nothing.
pub proof fn law_delivery_starts_at_once<H>(
    v: OwnerView<H>,
    m: PublicationView,
    to: (Seq<u8>, Seq<u8>),
    held: (H, H),
    now: u128,
)
    requires
        now + m.lifetime <= u128::MAX,
    ensures
        ({
            let w = placed_one(v, m, to, held, now);
            let k = DeliveryKeyView { peer: to.0, sub: to.1, id: m.envelope.id };
            let d = w.deliveries.pending[k];
            &&& placing(v, m, to.0) is Pending ==> {
                &&& w.deliveries.pending.dom() == v.deliveries.pending.dom().insert(k)
                &&& forall|j: DeliveryKeyView| #[trigger]
                    v.deliveries.pending.contains_key(j) && j != k ==> w.deliveries.pending[j]
                        == v.deliveries.pending[j]
                &&& d.recipient == v.peers[to.0].reg.cert
                &&& d.signed == m.signed
                &&& d.envelope == m.envelope
                &&& d.deadline == now + m.lifetime
                &&& d.next == now
                &&& d.attempts == 0
                &&& !d.writing
                &&& (d.held, d.memory) == held
                &&& w.deliveries.closed == v.deliveries.closed
                &&& w.deliveries.ended == v.deliveries.ended
                &&& v.stats.admitted < u64::MAX ==> w.stats.admitted == v.stats.admitted + 1
                &&& w.stats == (Metrics { admitted: w.stats.admitted, ..v.stats })
                &&& w == (OwnerView { deliveries: w.deliveries, stats: w.stats, ..v })
            }
            &&& !(placing(v, m, to.0) is Pending) ==> {
                &&& v.stats.rejected < u64::MAX ==> w.stats.rejected == v.stats.rejected + 1
                &&& w.stats == (Metrics { rejected: w.stats.rejected, ..v.stats })
                &&& w == (OwnerView { stats: w.stats, ..v })
            }
        }),
{
}

/// The backlog for a peer is made of the deliveries that are on their way to it. Each counts as one
/// message, and as the bytes of its payload, its signed envelope and 256 more.
pub proof fn law_backlog_is_what_is_on_its_way<H>(
    s: Seq<(DeliveryKeyView, PendingView<H>)>,
    k: DeliveryKeyView,
    p: PendingView<H>,
    peer: Seq<u8>,
)
    ensures
        backlog_messages(Seq::<(DeliveryKeyView, PendingView<H>)>::empty(), peer) == 0,
        backlog_bytes(Seq::<(DeliveryKeyView, PendingView<H>)>::empty(), peer) == 0,
        k.peer == peer ==> backlog_messages(s.push((k, p)), peer) == backlog_messages(s, peer) + 1,
        k.peer == peer ==> backlog_bytes(s.push((k, p)), peer) == backlog_bytes(s, peer)
            + p.envelope.len + p.signed.len() + 256,
        k.peer != peer ==> backlog_messages(s.push((k, p)), peer) == backlog_messages(s, peer),
        k.peer != peer ==> backlog_bytes(s.push((k, p)), peer) == backlog_bytes(s, peer),
{
    assert(s.push((k, p)).drop_last() =~= s);
}

/// A message that is put on its way to several peers is on its way to each of those that could take
/// it, as it was signed and due at once. What was on its way before still is, and nothing but the
/// deliveries and the counts changes.
pub proof fn law_message_is_on_its_way_to_each<H>(
    v: OwnerView<H>,
    m: PublicationView,
    held: Seq<(H, H)>,
    n: nat,
    now: u128,
)
    requires
        n <= m.recipients.len(),
        now + m.lifetime <= u128::MAX,
        forall|i: int, j: int|
            0 <= i < j < m.recipients.len() ==> (#[trigger] m.recipients[i]).0 != (
            #[trigger] m.recipients[j]).0,
    ensures
        ({
            let w = placed_upto(v, m, held, n, now);
            &&& forall|i: int|
                0 <= i < n && placing(
                    placed_upto(v, m, held, i as nat, now),
                    m,
                    (#[trigger] m.recipients[i]).0,
                ) is Pending ==> {
                    let k = DeliveryKeyView {
                        peer: m.recipients[i].0,
                        sub: m.recipients[i].1,
                        id: m.envelope.id,
                    };
                    let p = w.deliveries.pending[k];
                    &&& w.deliveries.pending.contains_key(k)
                    &&& p.envelope == m.envelope
                    &&& p.signed == m.signed
                    &&& p.deadline == now + m.lifetime
                    &&& p.next == now
                    &&& p.attempts == 0
                    &&& !p.writing
                    &&& (p.held, p.memory) == held[i]
                }
            &&& forall|k: DeliveryKeyView| #[trigger]
                v.deliveries.pending.contains_key(k) && k.id != m.envelope.id
                    ==> w.deliveries.pending.contains_key(k) && w.deliveries.pending[k]
                    == v.deliveries.pending[k]
            &&& v.deliveries.pending.dom().finite() ==> w.deliveries.pending.dom().finite()
            &&& w.deliveries.closed == v.deliveries.closed
            &&& w.deliveries.ended == v.deliveries.ended
            &&& w == (OwnerView { deliveries: w.deliveries, stats: w.stats, ..v })
        }),
    decreases n,
{
    if n > 0 {
        let l = (n - 1) as nat;
        law_message_is_on_its_way_to_each(v, m, held, l, now);
        let u = placed_upto(v, m, held, l, now);
        law_delivery_starts_at_once(u, m, m.recipients[l as int], held[l as int], now);
        let w = placed_upto(v, m, held, n, now);
        let key = DeliveryKeyView {
            peer: m.recipients[l as int].0,
            sub: m.recipients[l as int].1,
            id: m.envelope.id,
        };
        assert forall|k: DeliveryKeyView| #[trigger]
            u.deliveries.pending.contains_key(k) && k != key implies w.deliveries.pending.contains_key(
            k,
        ) && w.deliveries.pending[k] == u.deliveries.pending[k] by {
            if placing(u, m, m.recipients[l as int].0) is Pending {
                assert(w.deliveries.pending.dom().contains(k));
            }
        }
        assert forall|i: int|
            0 <= i < n && placing(
                placed_upto(v, m, held, i as nat, now),
                m,
                (#[trigger] m.recipients[i]).0,
            ) is Pending implies {
            let k = DeliveryKeyView {
                peer: m.recipients[i].0,
                sub: m.recipients[i].1,
                id: m.envelope.id,
            };
            let p = w.deliveries.pending[k];
            &&& w.deliveries.pending.contains_key(k)
            &&& p.envelope == m.envelope
            &&& p.signed == m.signed
            &&& p.deadline == now + m.lifetime
            &&& p.next == now
            &&& p.attempts == 0
            &&& !p.writing
            &&& (p.held, p.memory) == held[i]
        } by {
            let k = DeliveryKeyView {
                peer: m.recipients[i].0,
                sub: m.recipients[i].1,
                id: m.envelope.id,
            };
            if i < l {
                assert(m.recipients[i].0 != m.recipients[l as int].0);
                assert(u.deliveries.pending.contains_key(k));
            } else {
                assert(w.deliveries.pending.dom().contains(k));
            }
        }
    }
}

// Attempts

/// Whether a delivery can be attempted: it is not being written, its time has come and has not run
/// out, and the peer still has the subscription that it goes to, in its mode.
pub open spec fn ready<H>(v: OwnerView<H>, k: DeliveryKeyView, clock: Option<u64>, now: u128) -> bool {
    let p = v.deliveries.pending[k];
    let b = v.peers[k.peer].outbound[k.id.topic];
    &&& !p.writing && p.next <= now < p.deadline
    &&& clock is Some ==> clock->Some_0 < p.envelope.expires
    &&& v.peers.contains_key(k.peer) && v.peers[k.peer].outbound.contains_key(k.id.topic)
    &&& b.sub == k.sub && b.mode == p.envelope.mode
}

/// The bytes that a delivery takes on the wire: the frame, its metadata, and the payload.
pub open spec fn bytes_on_the_wire<H>(v: OwnerView<H>, k: DeliveryKeyView) -> nat {
    let p = v.deliveries.pending[k];
    12 + data_bytes(v.peers[k.peer].reg.session, k.sub, p.signed).len() + p.envelope.len as nat
}

/// A delivery is attempted exactly when it can be and its peer has granted the bytes that it takes.
/// The grant is then used up. Where none was granted, nor asked for, the bytes are asked for.
/// Otherwise nothing happens.
pub proof fn law_attempt_is_made_when_granted<H>(
    v: OwnerView<H>,
    k: DeliveryKeyView,
    clock: Option<u64>,
    now: u128,
    jitter: u16,
)
    requires
        v.deliveries.pending.contains_key(k),
        bytes_on_the_wire(v, k) <= u64::MAX,
        bytes_on_the_wire(v, k) <= usize::MAX,
    ensures
        ({
            let w = scheduled_one(v, k, clock, now, jitter);
            let peer = v.peers[k.peer];
            let b = peer.outbound[k.id.topic];
            let size = bytes_on_the_wire(v, k);
            let granted = b.credit is Some && size <= b.credit->Some_0 && b.room;
            &&& ready(v, k, clock, now) && granted ==> {
                &&& w.writes == v.writes.push(k)
                &&& w.deliveries.pending.dom() == v.deliveries.pending.dom()
                &&& forall|j: DeliveryKeyView| #[trigger]
                    v.deliveries.pending.contains_key(j) && j != k ==> w.deliveries.pending[j]
                        == v.deliveries.pending[j]
                &&& w.deliveries.pending[k].writing
                &&& w.deliveries.pending[k] == (PendingView {
                    writing: true,
                    attempts: w.deliveries.pending[k].attempts,
                    next: w.deliveries.pending[k].next,
                    ..v.deliveries.pending[k]
                })
                &&& w.deliveries.closed == v.deliveries.closed
                &&& w.deliveries.ended == v.deliveries.ended
                &&& w.peers == v.peers.insert(
                    k.peer,
                    PeerView {
                        outbound: peer.outbound.insert(
                            k.id.topic,
                            BindingView { credit: None, room: false, ..b },
                        ),
                        ..peer
                    },
                )
                &&& v.deliveries.pending[k].attempts == 0 ==> w.stats == v.stats
                &&& v.deliveries.pending[k].attempts > 0 && v.stats.retried < u64::MAX ==> w.stats
                    == (Metrics { retried: (v.stats.retried + 1) as u64, ..v.stats })
                &&& w == (OwnerView {
                    writes: w.writes,
                    deliveries: w.deliveries,
                    peers: w.peers,
                    stats: w.stats,
                    ..v
                })
            }
            &&& ready(v, k, clock, now) && b.credit is None && !b.requested ==> w == (OwnerView {
                peers: v.peers.insert(
                    k.peer,
                    PeerView {
                        outbound: peer.outbound.insert(
                            k.id.topic,
                            BindingView { requested: true, ..b },
                        ),
                        outbox: peer.outbox.push(
                            ControlView::RequestCredit {
                                topic: k.id.topic,
                                sub: k.sub,
                                bytes: size as u64,
                            },
                        ),
                        ..peer
                    },
                ),
                ..v
            })
            &&& !ready(v, k, clock, now) || (b.credit is None && b.requested) || (b.credit is Some
                && !granted) ==> w == v
        }),
{
}

/// After the n-th attempt at a delivery the next comes after the retry interval at least, which
/// doubles with every attempt up to thirty-two times, and less than a tenth of a second later than
/// that. The deadline has no say in it.
pub proof fn law_next_attempt_is_in_time<H>(
    v: OwnerView<H>,
    k: DeliveryKeyView,
    clock: Option<u64>,
    now: u128,
    jitter: u16,
)
    requires
        v.deliveries.pending.contains_key(k),
        now <= 18446744073709551615999999999,
        v.config.retry_interval <= 18446744073709551615999999999,
    ensures
        ({
            let w = scheduled_one(v, k, clock, now, jitter);
            let n = w.deliveries.pending[k].attempts;
            let next = w.deliveries.pending[k].next;
            let doubled = if n > 6 {
                5nat
            } else {
                (n - 1) as nat
            };
            w.writes != v.writes ==> {
                &&& v.deliveries.pending[k].attempts < u32::MAX ==> n
                    == v.deliveries.pending[k].attempts + 1
                &&& v.deliveries.pending[k].attempts == u32::MAX ==> n == u32::MAX
                &&& now + v.config.retry_interval <= next
                &&& next < now + v.config.retry_interval * pow2(doubled) + 100_000_000
                &&& v.config.retry_interval * pow2(doubled) <= 18446744073709551615999999999 ==> next
                    >= now + v.config.retry_interval * pow2(doubled)
            }
        }),
{
    let w = scheduled_one(v, k, clock, now, jitter);
    let n = w.deliveries.pending[k].attempts;
    let doubled = if n > 6 {
        5nat
    } else {
        (n - 1) as nat
    };
    lemma2_to64();
    if w.writes != v.writes {
        let interval = v.config.retry_interval;
        let times = crate::outgoing::backoff(n);
        assert(times == pow2(doubled));
        assert(interval * times >= interval) by (nonlinear_arith)
            requires
                times >= 1,
        ;
    }
}

/// A delivery that was attempted and is still pending is attempted again once that time has come,
/// unless its deadline has passed: whenever its peer then grants the bytes that it takes.
pub proof fn law_unanswered_is_sent_again<H>(
    v: OwnerView<H>,
    k: DeliveryKeyView,
    clock: Option<u64>,
    now: u128,
    jitter: u16,
    later: OwnerView<H>,
    then: u128,
    again: u16,
)
    requires
        v.deliveries.pending.contains_key(k),
        now <= 18446744073709551615999999999,
        v.config.retry_interval <= 18446744073709551615999999999,
        scheduled_one(v, k, clock, now, jitter).writes != v.writes,
        later.deliveries.pending.contains_key(k),
        later.deliveries.pending[k] == (PendingView {
            writing: false,
            ..scheduled_one(v, k, clock, now, jitter).deliveries.pending[k]
        }),
        now + v.config.retry_interval * 32 + 100_000_000 <= then,
        then < v.deliveries.pending[k].deadline,
        clock is Some ==> clock->Some_0 < v.deliveries.pending[k].envelope.expires,
        later.peers.contains_key(k.peer),
        later.peers[k.peer].outbound.contains_key(k.id.topic),
        later.peers[k.peer].outbound[k.id.topic].sub == k.sub,
        later.peers[k.peer].outbound[k.id.topic].mode == v.deliveries.pending[k].envelope.mode,
        later.peers[k.peer].outbound[k.id.topic].room,
        later.peers[k.peer].outbound[k.id.topic].credit is Some,
        bytes_on_the_wire(later, k) <= later.peers[k.peer].outbound[k.id.topic].credit->Some_0,
    ensures
        scheduled_one(later, k, clock, then, again).writes == later.writes.push(k),
{
    law_next_attempt_is_in_time(v, k, clock, now, jitter);
    law_attempt_is_made_when_granted(later, k, clock, then, again);
    lemma2_to64();
    let n = scheduled_one(v, k, clock, now, jitter).deliveries.pending[k].attempts;
    let doubled = if n > 6 {
        5nat
    } else {
        (n - 1) as nat
    };
    let interval = v.config.retry_interval;
    let times = pow2(doubled);
    assert(interval * times <= interval * 32) by (nonlinear_arith)
        requires
            times <= 32,
    ;
}

/// Whether one attempt was made at a delivery at `now`: it is being written, one more attempt is
/// counted, the next comes after the retry interval at least, which doubles with every attempt up
/// to thirty-two times, and less than a tenth of a second later than that, and nothing else of the
/// delivery has changed.
pub open spec fn attempted_once<H>(
    p: PendingView<H>,
    q: PendingView<H>,
    interval: nat,
    now: u128,
) -> bool {
    let doubled = if q.attempts > 6 {
        5nat
    } else {
        (q.attempts - 1) as nat
    };
    &&& q.writing
    &&& p.attempts < u32::MAX ==> q.attempts == p.attempts + 1
    &&& p.attempts == u32::MAX ==> q.attempts == u32::MAX
    &&& now + interval <= q.next < now + interval * pow2(doubled) + 100_000_000
    &&& q == (PendingView { writing: true, attempts: q.attempts, next: q.next, ..p })
}

/// Whether a peer has granted the bytes that a delivery takes.
pub open spec fn granted<H>(v: OwnerView<H>, k: DeliveryKeyView) -> bool {
    let b = v.peers[k.peer].outbound[k.id.topic];
    b.credit is Some && bytes_on_the_wire(v, k) <= b.credit->Some_0 && b.room
}

proof fn lemma_schedule<H>(
    v: OwnerView<H>,
    n: nat,
    clock: Option<u64>,
    now: u128,
    jitters: Seq<u16>,
)
    requires
        v.deliveries.pending.dom().finite(),
        n <= delivery_list(v.deliveries.pending).len(),
        now <= 18446744073709551615999999999,
        v.config.retry_interval <= 18446744073709551615999999999,
    ensures
        ({
            let w = scheduled_upto(v, n, clock, now, jitters);
            let all = delivery_list(v.deliveries.pending);
            &&& w.config == v.config
            &&& w.deliveries.pending.dom() == v.deliveries.pending.dom()
            &&& forall|k: DeliveryKeyView| #[trigger]
                v.deliveries.pending.contains_key(k) ==> w.deliveries.pending[k]
                    == v.deliveries.pending[k] || attempted_once(
                    v.deliveries.pending[k],
                    w.deliveries.pending[k],
                    v.config.retry_interval,
                    now,
                )
            &&& forall|i: int|
                n <= i < all.len() ==> w.deliveries.pending[(#[trigger] all[i]).0]
                    == v.deliveries.pending[all[i].0]
            &&& forall|i: int|
                0 <= i < n ==> !(ready(w, (#[trigger] all[i]).0, clock, now) && granted(
                    w,
                    all[i].0,
                ))
        }),
    decreases n,
{
    let all = delivery_list(v.deliveries.pending);
    lemma_listing_exists::<DeliveryKey, PendingView<H>>(v.deliveries.pending);
    if n > 0 {
        let l = (n - 1) as nat;
        lemma_schedule(v, l, clock, now, jitters);
        let u = scheduled_upto(v, l, clock, now, jitters);
        let w = scheduled_upto(v, n, clock, now, jitters);
        let key = all[l as int].0;
        lemma_pairs_map_index::<DeliveryKey, PendingView<H>>(all, l as int);
        assert(v.deliveries.pending.contains_key(key));
        assert(u.deliveries.pending.dom().contains(key));
        assert(u.deliveries.pending[key] == v.deliveries.pending[key]);
        law_next_attempt_is_in_time(u, key, clock, now, jitters[l as int]);
        assert(w.deliveries.pending.dom() =~= u.deliveries.pending.dom());
        assert forall|i: int| 0 <= i < all.len() && i != l implies (#[trigger] all[i]).0 != key by {
            if i < l {
                assert(<DeliveryKey as Key>::less(all[i].0, all[l as int].0));
            } else {
                assert(<DeliveryKey as Key>::less(all[l as int].0, all[i].0));
            }
            <DeliveryKey as Key>::less_irreflexive(key);
        }
        assert forall|i: int| 0 <= i < n implies !(ready(w, (#[trigger] all[i]).0, clock, now)
            && granted(w, all[i].0)) by {
            let k = all[i].0;
            if i < l {
                assert(!(ready(u, k, clock, now) && granted(u, k)));
                lemma_pairs_map_index::<DeliveryKey, PendingView<H>>(all, i);
                assert(w.deliveries.pending[k] == u.deliveries.pending[k]);
            }
        }
        assert forall|k: DeliveryKeyView| #[trigger] v.deliveries.pending.contains_key(k) implies w.deliveries.pending[k]
            == v.deliveries.pending[k] || attempted_once(
            v.deliveries.pending[k],
            w.deliveries.pending[k],
            v.config.retry_interval,
            now,
        ) by {
            if k != key {
                assert(w.deliveries.pending[k] == u.deliveries.pending[k]);
            } else if w.deliveries.pending[k] != u.deliveries.pending[k] {
                assert(w.writes == u.writes.push(key));
                assert(w.writes.len() != u.writes.len());
            }
        }
    }
}

/// After everything that can be written was, no delivery is left that can be attempted and whose
/// peer has granted the bytes that it takes. Every delivery is as it was, or was attempted once.
pub proof fn law_nothing_is_left_that_could_go<H>(
    v: OwnerView<H>,
    clock: Option<u64>,
    now: u128,
    jitters: Seq<u16>,
)
    requires
        v.deliveries.pending.dom().finite(),
        now <= 18446744073709551615999999999,
        v.config.retry_interval <= 18446744073709551615999999999,
    ensures
        ({
            let w = scheduled(v, clock, now, jitters);
            &&& w.deliveries.pending.dom() == v.deliveries.pending.dom()
            &&& forall|k: DeliveryKeyView| #[trigger]
                v.deliveries.pending.contains_key(k) ==> w.deliveries.pending[k]
                    == v.deliveries.pending[k] || attempted_once(
                    v.deliveries.pending[k],
                    w.deliveries.pending[k],
                    v.config.retry_interval,
                    now,
                )
            &&& forall|k: DeliveryKeyView| #[trigger]
                v.deliveries.pending.contains_key(k) ==> !(ready(w, k, clock, now) && granted(w, k))
        }),
{
    let all = delivery_list(v.deliveries.pending);
    lemma_schedule(v, all.len(), clock, now, jitters);
    let w = scheduled(v, clock, now, jitters);
    lemma_listing_exists::<DeliveryKey, PendingView<H>>(v.deliveries.pending);
    assert forall|k: DeliveryKeyView| #[trigger] v.deliveries.pending.contains_key(k) implies !(ready(
        w,
        k,
        clock,
        now,
    ) && granted(w, k)) by {
        assert(pairs_map(all).contains_key(k));
        let i = choose|i: int| 0 <= i < all.len() && (#[trigger] all[i]).0 == k;
        assert(!(ready(w, all[i].0, clock, now) && granted(w, all[i].0)));
    }
}

/// That the writer of a binding has room again is noted of that binding alone.
pub proof fn law_room_is_noted<H>(v: OwnerView<H>, peer: Seq<u8>, topic: Seq<char>, room: bool)
    ensures
        ({
            let w = with_room(v, peer, topic, room);
            let p = v.peers[peer];
            &&& v.peers.contains_key(peer) && p.outbound.contains_key(topic) ==> {
                &&& w.peers.dom() == v.peers.dom()
                &&& forall|q: Seq<u8>| #[trigger]
                    v.peers.contains_key(q) && q != peer ==> w.peers[q] == v.peers[q]
                &&& w.peers[peer].outbound[topic].room == room
                &&& w.peers[peer] == (PeerView {
                    outbound: p.outbound.insert(
                        topic,
                        BindingView { room, ..p.outbound[topic] },
                    ),
                    ..p
                })
                &&& w == (OwnerView { peers: w.peers, ..v })
            }
            &&& !v.peers.contains_key(peer) || !p.outbound.contains_key(topic) ==> w == v
        }),
{
}

/// What becomes of a delivery once it was written, in the session that the peer still has. What
/// goes out at most once is done with it: sent, or failed as the attempt did. What is acknowledged
/// stays pending; if the peer closed the subscription it has failed, and any other failure lets the
/// peer go.
pub proof fn law_attempt_is_followed_up<H>(
    v: OwnerView<H>,
    k: DeliveryKeyView,
    session: Seq<u8>,
    result: Result<(), Error>,
    now: u128,
)
    ensures
        ({
            let w = after_sent(v, k, session, result, now);
            let p = v.deliveries.pending[k];
            let current = v.peers.contains_key(k.peer) && v.peers[k.peer].reg.session == session
                && v.deliveries.pending.contains_key(k);
            let once = p.envelope.mode == DeliveryMode::BestEffort;
            &&& !current ==> w == v
            &&& current && once && result is Ok ==> ended_as(
                v.deliveries,
                w.deliveries,
                k,
                RecipientOutcome::Sent,
                grace_of(v.config),
            )
            &&& current && once ==> (result matches Err(e) ==> ended_as(
                v.deliveries,
                w.deliveries,
                k,
                RecipientOutcome::Failed(e),
                grace_of(v.config),
            ))
            &&& current && !once && result is Ok ==> {
                &&& w.deliveries.pending == v.deliveries.pending.insert(
                    k,
                    PendingView { writing: false, ..p },
                )
                &&& w.deliveries.closed == v.deliveries.closed
                &&& w.deliveries.ended == v.deliveries.ended
            }
            &&& current && !once && result == Err::<(), Error>(Error::SubscriptionClosed) ==> ended_as(
                v.deliveries,
                w.deliveries,
                k,
                RecipientOutcome::Failed(Error::SubscriptionClosed),
                grace_of(v.config),
            )
            &&& current && (once || result is Ok || result == Err::<(), Error>(
                Error::SubscriptionClosed,
            )) ==> {
                &&& forall|j: DeliveryKeyView|
                    #![trigger v.deliveries.pending.contains_key(j)]
                    #![trigger w.deliveries.pending.contains_key(j)]
                    j != k ==> untouched(v.deliveries, w.deliveries, j)
                &&& w == (OwnerView { deliveries: w.deliveries, ..v })
            }
            &&& current && !once && result is Err && result != Err::<(), Error>(
                Error::SubscriptionClosed,
            ) ==> {
                &&& !w.peers.contains_key(k.peer)
                &&& w.deliveries.pending.contains_key(k)
                &&& w.deliveries.pending[k] == (PendingView { writing: false, next: now, ..p })
            }
        }),
{
}

// Records that come in

/// A peer that subscribes is told what came of it. It needs a certificate that lets it subscribe,
/// and the endpoint one that lets it publish, and the endpoint must not be shutting down (else
/// one); what it already has it keeps (zero); a topic that is new must be within the limits of both
/// and of its certificate, where there is one (else two). Then it is bound: with nothing granted or
/// asked for, and room.
pub proof fn law_subscriber_is_bound<H>(
    v: OwnerView<H>,
    peer: Seq<u8>,
    topic: Seq<char>,
    sub: Seq<u8>,
    mode: DeliveryMode,
    writer: Result<H, Error>,
    now: u128,
)
    ensures
        ({
            let (w, r) = after_control(
                v,
                peer,
                ControlView::Subscribe { topic, sub, mode },
                writer,
                now,
            );
            let p = v.peers[peer];
            let n = p.outbound.dom().len();
            let most = p.reg.cert.claims.limits.max_subscriptions;
            let bound = p.outbound.contains_key(topic);
            let b = p.outbound[topic];
            let may = claims_allow(p.reg.cert.claims, topic, false) && claims_allow(
                v.cert.claims,
                topic,
                true,
            ) && v.drain is None;
            let same = bound && b.sub == sub && b.mode == mode;
            let full = !bound && (n >= v.config.max_topics || n >= p.reg.max_topics || (most != 0 && n
                >= most));
            let code: u64 = if !may {
                1
            } else if !same && full {
                2
            } else {
                0
            };
            let anew = may && !same && !full;
            &&& !v.peers.contains_key(peer) ==> w == v && r == Err::<(), Error>(
                Error::PeerUnavailable,
            )
            &&& v.peers.contains_key(peer) && anew && writer is Err ==> w == v && r == Err::<
                (),
                Error,
            >(writer->Err_0)
            &&& v.peers.contains_key(peer) && !(anew && writer is Err) ==> {
                &&& r is Ok
                &&& w.peers.dom() == v.peers.dom()
                &&& forall|q: Seq<u8>| #[trigger]
                    v.peers.contains_key(q) && q != peer ==> w.peers[q] == v.peers[q]
                &&& w.peers[peer].outbox == p.outbox.push(ControlView::Suback { topic, sub, code })
                &&& w.peers[peer].reg == p.reg && w.peers[peer].inbound == p.inbound
                    && w.peers[peer].lost == p.lost
                &&& !anew ==> w.peers[peer].outbound == p.outbound
                &&& anew ==> w.peers[peer].outbound == p.outbound.insert(
                    topic,
                    BindingView {
                        sub,
                        mode,
                        credit: None,
                        requested: false,
                        room: true,
                        writer: writer->Ok_0,
                    },
                )
                &&& w == (OwnerView { peers: w.peers, ..v })
            }
        }),
{
}

/// What a peer answers to a subscription is noted of that subscription, if it still is the same:
/// confirmed, or refused for want of permission or of room. Any other answer breaks the rules.
pub proof fn law_subscription_is_confirmed<H>(
    v: OwnerView<H>,
    peer: Seq<u8>,
    topic: Seq<char>,
    sub: Seq<u8>,
    code: u64,
    writer: Result<H, Error>,
    now: u128,
)
    ensures
        ({
            let (w, r) = after_control(
                v,
                peer,
                ControlView::Suback { topic, sub, code },
                writer,
                now,
            );
            let its = v.subscriptions.contains_key(topic) && v.subscriptions[topic].id == sub;
            let s = v.subscriptions[topic];
            let z = w.subscriptions[topic];
            let said: Result<(), Error> = if code == 0 {
                Ok(())
            } else if code == 1 {
                Err(Error::Unauthorized)
            } else {
                Err(Error::QueueFull)
            };
            &&& !its ==> w == v && r is Ok
            &&& its && code > 2 ==> w == v && r == Err::<(), Error>(Error::Protocol("SUBACK code"))
            &&& its && code <= 2 ==> {
                &&& r is Ok
                &&& w.subscriptions.dom() == v.subscriptions.dom()
                &&& forall|t: Seq<char>| #[trigger]
                    v.subscriptions.contains_key(t) && t != topic ==> w.subscriptions[t]
                        == v.subscriptions[t]
                &&& z.ready == s.ready.insert(peer, said)
                &&& code == 0 ==> z.confirmed == s.confirmed.insert(peer)
                &&& code != 0 ==> z.confirmed == s.confirmed
                &&& z == (SubscriptionView { ready: z.ready, confirmed: z.confirmed, ..s })
                &&& w == (OwnerView { subscriptions: w.subscriptions, ..v })
            }
        }),
{
}

/// A peer that unsubscribes is bound no more, if that is the subscription that it has, and what is
/// on its way to that subscription has failed. Every other delivery is as before.
pub proof fn law_unsubscribed_gets_nothing_more<H>(
    v: OwnerView<H>,
    peer: Seq<u8>,
    topic: Seq<char>,
    sub: Seq<u8>,
    writer: Result<H, Error>,
    now: u128,
)
    ensures
        ({
            let (w, r) = after_control(
                v,
                peer,
                ControlView::Unsubscribe { topic, sub },
                writer,
                now,
            );
            let p = v.peers[peer];
            let bound = v.peers.contains_key(peer) && p.outbound.contains_key(topic)
                && p.outbound[topic].sub == sub;
            &&& r is Ok
            &&& !bound ==> w.peers == v.peers
            &&& bound ==> w.peers == v.peers.insert(
                peer,
                PeerView { outbound: p.outbound.remove(topic), ..p },
            )
            &&& forall|k: DeliveryKeyView| #[trigger]
                v.deliveries.pending.contains_key(k) && k.peer == peer && k.sub == sub && k.id.topic
                    == topic ==> ended_as(
                    v.deliveries,
                    w.deliveries,
                    k,
                    RecipientOutcome::Failed(Error::SubscriptionClosed),
                    grace_of(v.config),
                )
            &&& forall|k: DeliveryKeyView|
                #![trigger v.deliveries.pending.contains_key(k)]
                #![trigger w.deliveries.pending.contains_key(k)]
                !(v.deliveries.pending.contains_key(k) && k.peer == peer && k.sub == sub
                    && k.id.topic == topic) ==> untouched(v.deliveries, w.deliveries, k)
            &&& w == (OwnerView { peers: w.peers, deliveries: w.deliveries, ..v })
        }),
{
}

/// A peer that asks for room waits for it, on the subscription that it has confirmed; one that asks
/// for none gives back what it was granted. More than the largest frame is not to be asked for.
pub proof fn law_request_for_room_is_noted<H>(
    v: OwnerView<H>,
    peer: Seq<u8>,
    topic: Seq<char>,
    sub: Seq<u8>,
    bytes: u64,
    writer: Result<H, Error>,
    now: u128,
)
    requires
        bytes <= usize::MAX,
    ensures
        ({
            let (w, r) = after_control(
                v,
                peer,
                ControlView::RequestCredit { topic, sub, bytes },
                writer,
                now,
            );
            let s = v.subscriptions[topic];
            let z = w.subscriptions[topic];
            let its = v.subscriptions.contains_key(topic) && s.id == sub && s.confirmed.contains(
                peer,
            );
            &&& bytes > v.config.max_payload + 16396 ==> w == v && r == Err::<(), Error>(
                Error::Protocol("credit request ceiling"),
            )
            &&& bytes <= v.config.max_payload + 16396 ==> {
                &&& r is Ok
                &&& !its ==> w == v
                &&& its ==> {
                    &&& w.subscriptions.dom() == v.subscriptions.dom()
                    &&& forall|t: Seq<char>| #[trigger]
                        v.subscriptions.contains_key(t) && t != topic ==> w.subscriptions[t]
                            == v.subscriptions[t]
                    &&& bytes > 0 ==> z.demand == s.demand.insert(peer, bytes as usize) && z.grants
                        == s.grants
                    &&& bytes == 0 ==> z.demand == s.demand.remove(peer) && z.grants
                        == s.grants.remove(peer)
                    &&& z == (SubscriptionView { demand: z.demand, grants: z.grants, ..s })
                    &&& w == (OwnerView { subscriptions: w.subscriptions, ..v })
                }
            }
        }),
{
}

/// Room that a peer grants is for what waits for it: the binding that asked may use it once. Where
/// nothing waits any more it is given back at once. What was not asked for, is granted twice, is
/// nothing or is more than the largest frame breaks the rules; what was granted to a subscription
/// that is over is let pass.
pub proof fn law_room_goes_to_what_waits<H>(
    v: OwnerView<H>,
    peer: Seq<u8>,
    topic: Seq<char>,
    sub: Seq<u8>,
    bytes: u64,
    writer: Result<H, Error>,
    now: u128,
)
    requires
        bytes <= usize::MAX,
    ensures
        ({
            let (w, r) = after_control(
                v,
                peer,
                ControlView::Credit { topic, sub, bytes },
                writer,
                now,
            );
            let p = v.peers[peer];
            let b = p.outbound[topic];
            let sound = 0 < bytes <= p.reg.max_payload + 16396;
            let bound = p.outbound.contains_key(topic) && b.sub == sub;
            let waits = exists|k: DeliveryKeyView| #[trigger]
                v.deliveries.pending.contains_key(k) && k.peer == peer && k.sub == sub && k.id.topic
                    == topic;
            &&& !v.peers.contains_key(peer) ==> w == v && r == Err::<(), Error>(
                Error::PeerUnavailable,
            )
            &&& v.peers.contains_key(peer) && !sound ==> w == v && r == Err::<(), Error>(
                Error::Protocol("credit byte ceiling"),
            )
            &&& v.peers.contains_key(peer) && sound && !bound ==> w == v && r is Ok
            &&& v.peers.contains_key(peer) && sound && bound && (!b.requested || b.credit is Some)
                ==> r == Err::<(), Error>(Error::Protocol("unsolicited or duplicate credit grant"))
            &&& v.peers.contains_key(peer) && sound && bound && b.requested && b.credit is None ==> {
                &&& r is Ok
                &&& waits ==> w.peers == v.peers.insert(
                    peer,
                    PeerView {
                        outbound: p.outbound.insert(
                            topic,
                            BindingView { credit: Some(bytes as usize), requested: false, ..b },
                        ),
                        ..p
                    },
                )
                &&& !waits ==> w.peers == v.peers.insert(
                    peer,
                    PeerView {
                        outbound: p.outbound.insert(
                            topic,
                            BindingView { credit: None, requested: false, ..b },
                        ),
                        outbox: p.outbox.push(ControlView::RequestCredit { topic, sub, bytes: 0 }),
                        ..p
                    },
                )
                &&& w == (OwnerView { peers: w.peers, ..v })
            }
        }),
{
}

/// What a peer makes of a message ends its delivery: processed (zero), or refused for good (two).
/// One that is to be tried again (one) is due after the retry interval. An answer about what was
/// never sent breaks the rules; one about what has ended changes nothing.
pub proof fn law_answer_ends_a_delivery<H>(
    v: OwnerView<H>,
    peer: Seq<u8>,
    topic: Seq<char>,
    sub: Seq<u8>,
    epoch: Seq<u8>,
    sequence: u64,
    code: u64,
    writer: Result<H, Error>,
    now: u128,
)
    requires
        now + v.config.retry_interval <= u128::MAX,
    ensures
        ({
            let (w, r) = after_control(
                v,
                peer,
                ControlView::Outcome { topic, sub, epoch, sequence, code },
                writer,
                now,
            );
            let k = DeliveryKeyView {
                peer,
                sub,
                id: MessageIdView {
                    realm_id: v.config.trust.realm,
                    publisher_endpoint_id: public_key(v.secret),
                    publisher_epoch: epoch,
                    topic,
                    sequence,
                },
            };
            let d = v.deliveries;
            let p = d.pending[k];
            let known = d.pending.contains_key(k) || d.closed.contains_key(k);
            let open = d.pending.contains_key(k);
            &&& !known ==> w == v && r == Err::<(), Error>(
                Error::Protocol("acknowledgement for an unaddressed delivery"),
            )
            &&& known && !open ==> w == v && r is Ok
            &&& open && p.attempts == 0 ==> w == v && r == Err::<(), Error>(
                Error::Protocol("ACK before DATA"),
            )
            &&& open && p.attempts > 0 && code > 2 ==> w == v && r == Err::<(), Error>(
                Error::Protocol("outcome"),
            )
            &&& open && p.attempts > 0 && code == 0 ==> {
                &&& r is Ok
                &&& ended_as(d, w.deliveries, k, RecipientOutcome::Processed, grace_of(v.config))
                &&& v.stats.processed < u64::MAX ==> w.stats.processed == v.stats.processed + 1
                &&& w.stats == (Metrics { processed: w.stats.processed, ..v.stats })
            }
            &&& open && p.attempts > 0 && code == 1 ==> {
                &&& r is Ok
                &&& w.deliveries.pending.dom() == d.pending.dom()
                &&& w.deliveries.pending[k].next == now + v.config.retry_interval
                &&& w.deliveries.pending[k] == (PendingView {
                    next: w.deliveries.pending[k].next,
                    ..p
                })
                &&& w.stats == v.stats
            }
            &&& open && p.attempts > 0 && code == 2 ==> {
                &&& r is Ok
                &&& ended_as(d, w.deliveries, k, RecipientOutcome::PermanentNack, grace_of(v.config))
                &&& w.stats == v.stats
            }
            &&& forall|j: DeliveryKeyView|
                #![trigger d.pending.contains_key(j)]
                #![trigger w.deliveries.pending.contains_key(j)]
                j != k ==> untouched(d, w.deliveries, j)
            &&& w == (OwnerView { deliveries: w.deliveries, stats: w.stats, ..v })
        }),
{
}

/// A peer that says goodbye keeps its session but gives deliveries no more time. One that reports
/// an error breaks the session.
pub proof fn law_goodbye_ends_the_window<H>(
    v: OwnerView<H>,
    peer: Seq<u8>,
    code: u64,
    writer: Result<H, Error>,
    now: u128,
)
    ensures
        ({
            let (w, r) = after_control(v, peer, ControlView::Goodbye, writer, now);
            let p = v.peers[peer];
            &&& r is Ok
            &&& !v.peers.contains_key(peer) ==> w == v
            &&& v.peers.contains_key(peer) ==> w == (OwnerView {
                peers: v.peers.insert(
                    peer,
                    PeerView { reg: SessionView { window_secs: 0, ..p.reg }, ..p },
                ),
                ..v
            })
        }),
        after_control(v, peer, ControlView::Error(code), writer, now) == (
            v,
            Err::<(), Error>(Error::Protocol("remote error")),
        ),
{
}

/// A peer that breaks the rules is let go, and the failure is counted.
pub proof fn law_offender_is_let_go<H>(v: OwnerView<H>, peer: Seq<u8>, now: u128)
    ensures
        ({
            let w = after_offence(v, peer, now);
            let gone = without_peer(v, peer, now);
            &&& !w.peers.contains_key(peer)
            &&& v.stats.authorization_failures < u64::MAX ==> w.stats.authorization_failures
                == v.stats.authorization_failures + 1
            &&& w.stats == (Metrics {
                authorization_failures: w.stats.authorization_failures,
                ..v.stats
            })
            &&& w == (OwnerView { stats: w.stats, ..gone })
        }),
{
}

/// A record does what it says if it comes in the session that its peer has, from a peer that may
/// act, and keeps the rules. A peer that may not act, or breaks the rules, is let go. A record of
/// another session is ignored.
pub proof fn law_record_is_of_its_session<H>(
    v: OwnerView<H>,
    peer: Seq<u8>,
    session: Seq<u8>,
    c: ControlView,
    writer: Result<H, Error>,
    clock: Option<u64>,
    now: u128,
)
    ensures
        ({
            let w = after_remote(v, peer, session, c, writer, clock, now);
            let current = v.peers.contains_key(peer) && v.peers[peer].reg.session == session;
            let (x, r) = after_control(v, peer, c, writer, now);
            &&& !current ==> w == v
            &&& current && valid_peer(v, peer, session, clock) is Err ==> w == after_offence(
                v,
                peer,
                now,
            )
            &&& current && valid_peer(v, peer, session, clock) is Ok && r is Err ==> w
                == after_offence(x, peer, now)
            &&& current && valid_peer(v, peer, session, clock) is Ok && r is Ok ==> w == x
        }),
{
}

// Messages that come in

/// What stops a message from being taken in, besides its peer and its form: it is of another realm,
/// the peer may not publish to the topic or the endpoint may not subscribe to it; it is not as long
/// as it says, or longer than the endpoint, its certificate or the peer's allows; it is from the
/// future, or lasts longer than deliveries may. Then nothing changes. When it is not stopped, the
/// stream that it comes on is noted, if there is room for one more and the binding has no other.
pub proof fn law_message_is_checked_first<H>(
    v: OwnerView<H>,
    peer: Seq<u8>,
    session: Seq<u8>,
    sub: Seq<u8>,
    stream: u64,
    signed: Seq<u8>,
    len: nat,
    clock: Option<u64>,
)
    ensures
        ({
            let (w, r) = after_begin(v, peer, session, sub, stream, signed, len, clock);
            match (valid_peer(v, peer, session, clock), signed_envelope_of(signed, peer)) {
                (Err(e), _) => w == v && r == Err::<TicketView<H>, Error>(e),
                (Ok(_), Err(e)) => w == v && r == Err::<TicketView<H>, Error>(e),
                (Ok(t), Ok(e)) => {
                    let p = v.peers[peer];
                    let topic = e.id.topic;
                    let own = v.cert.claims.limits.max_payload;
                    let theirs = p.reg.cert.claims.limits.max_payload;
                    let may = e.id.realm_id == v.config.trust.realm && claims_allow(
                        p.reg.cert.claims,
                        topic,
                        true,
                    ) && claims_allow(v.cert.claims, topic, false);
                    let fits = e.len == len && len <= v.config.max_payload && (own == 0 || len
                        <= own) && (theirs == 0 || len <= theirs);
                    let timely = (e.created <= t + v.config.trust.clock_skew_secs) && e.expires
                        - e.created <= v.config.delivery_window / 1_000_000_000;
                    let other = p.inbound.contains_key(topic) && p.inbound[topic].0 == sub
                        && p.inbound[topic].1 != stream;
                    let full = !p.inbound.contains_key(topic) && p.inbound.dom().len()
                        >= v.config.max_topics;
                    &&& !may ==> w == v && r == Err::<TicketView<H>, Error>(Error::Unauthorized)
                    &&& may && !fits ==> w == v && r == Err::<TicketView<H>, Error>(
                        Error::MessageTooLarge,
                    )
                    &&& may && fits && !timely ==> w == v && r == Err::<TicketView<H>, Error>(
                        Error::DeliveryExpired,
                    )
                    &&& may && fits && timely && other ==> w == v && r == Err::<
                        TicketView<H>,
                        Error,
                    >(Error::Protocol("multiple streams for a topic binding"))
                    &&& may && fits && timely && full ==> w == v && r == Err::<
                        TicketView<H>,
                        Error,
                    >(Error::QueueFull)
                    &&& may && fits && timely && !other && !full ==> {
                        &&& w.peers == v.peers.insert(
                            peer,
                            PeerView { inbound: p.inbound.insert(topic, (sub, stream)), ..p },
                        )
                        &&& w == (OwnerView {
                            peers: w.peers,
                            subscriptions: w.subscriptions,
                            ..v
                        })
                        &&& (r is Ok ==> v.subscriptions.contains_key(topic))
                    }
                },
            }
        }),
{
}

/// Whether nothing stops a message that far.
pub open spec fn admissible<H>(
    v: OwnerView<H>,
    peer: Seq<u8>,
    sub: Seq<u8>,
    stream: u64,
    e: EnvelopeView,
    len: nat,
    t: u64,
) -> bool {
    let p = v.peers[peer];
    let own = v.cert.claims.limits.max_payload;
    let theirs = p.reg.cert.claims.limits.max_payload;
    &&& e.id.realm_id == v.config.trust.realm
    &&& claims_allow(p.reg.cert.claims, e.id.topic, true)
    &&& claims_allow(v.cert.claims, e.id.topic, false)
    &&& e.len == len && len <= v.config.max_payload
    &&& (own == 0 || len <= own) && (theirs == 0 || len <= theirs)
    &&& e.created <= t + v.config.trust.clock_skew_secs
    &&& e.expires - e.created <= v.config.delivery_window / 1_000_000_000
    &&& p.inbound.contains_key(e.id.topic) ==> p.inbound[e.id.topic].0 != sub
        || p.inbound[e.id.topic].1 == stream
    &&& !p.inbound.contains_key(e.id.topic) ==> p.inbound.dom().len() < v.config.max_topics
}

/// A message that gets that far is for a subscription: there is one to its topic, it is the one
/// that is meant, in the message's mode and confirmed by the peer, and the peer was granted room.
/// That room is then used up, whatever becomes of the message. It is taken in if it fits the room
/// and does not contradict what is remembered of it, and then holds what the room held.
pub proof fn law_message_uses_its_room<H>(
    v: OwnerView<H>,
    peer: Seq<u8>,
    session: Seq<u8>,
    sub: Seq<u8>,
    stream: u64,
    signed: Seq<u8>,
    len: nat,
    clock: Option<u64>,
    e: EnvelopeView,
    t: u64,
)
    requires
        valid_peer(v, peer, session, clock) == Ok::<u64, Error>(t),
        signed_envelope_of(signed, peer) == Ok::<EnvelopeView, Error>(e),
        admissible(v, peer, sub, stream, e, len, t),
    ensures
        ({
            let (w, r) = after_begin(v, peer, session, sub, stream, signed, len, clock);
            let topic = e.id.topic;
            let s = v.subscriptions[topic];
            let bound = s.id == sub && s.mode == e.mode && s.confirmed.contains(peer);
            let granted = s.grants.contains_key(peer);
            let room = s.grants[peer];
            let size = len + data_bytes(session, sub, signed).len() + 12;
            let key = RecordKeyView { sub, id: e.id };
            let contradicts = v.records.contains_key(key) && v.records[key].fingerprint != sha256(
                signed,
            );
            &&& !v.subscriptions.contains_key(topic) ==> w.subscriptions == v.subscriptions && r
                == Err::<TicketView<H>, Error>(Error::SubscriptionClosed)
            &&& v.subscriptions.contains_key(topic) && !bound ==> w.subscriptions == v.subscriptions
                && r == Err::<TicketView<H>, Error>(Error::Unauthorized)
            &&& v.subscriptions.contains_key(topic) && bound && !granted ==> w.subscriptions
                == v.subscriptions && r == Err::<TicketView<H>, Error>(
                Error::Protocol("DATA without credit"),
            )
            &&& v.subscriptions.contains_key(topic) && bound && granted ==> {
                &&& w.subscriptions == v.subscriptions.insert(
                    topic,
                    SubscriptionView { grants: s.grants.remove(peer), ..s },
                )
                &&& size > room.bytes ==> r == Err::<TicketView<H>, Error>(
                    Error::Protocol("DATA exceeds credit"),
                )
                &&& size <= room.bytes && contradicts ==> r == Err::<TicketView<H>, Error>(
                    Error::Protocol("conflicting message identity"),
                )
                &&& size <= room.bytes && !contradicts ==> {
                    &&& r is Ok
                    &&& r->Ok_0.envelope == e
                    &&& r->Ok_0.fingerprint == sha256(signed)
                    &&& r->Ok_0.keep == signed.len() + 2048
                    &&& r->Ok_0.held == room.held
                }
            }
        }),
{
}

/// What is done with a message once its payload is there, from a peer that may act. Its payload
/// must be the one that it describes, and it must not contradict what is remembered of it. Too
/// late, or for a subscription that is over, it is refused for good. What was processed or refused
/// before is answered in the same way again, what is being processed is not handled twice, and the
/// rest is handled, if there is room; else the peer is to try again.
pub proof fn law_message_is_handled_once<H>(
    v: OwnerView<H>,
    peer: Seq<u8>,
    session: Seq<u8>,
    sub: Seq<u8>,
    ticket: TicketView<H>,
    payload: Seq<u8>,
    room: bool,
    clock: Option<u64>,
)
    ensures
        ({
            let r = arrival(v, peer, session, sub, ticket, payload, room, clock);
            let e = ticket.envelope;
            let key = RecordKeyView { sub, id: e.id };
            let known = v.records.contains_key(key);
            let had = v.records[key];
            let described = e.len == payload.len() && e.digest == sha256(payload);
            let wanted = v.subscriptions.contains_key(e.id.topic) && v.subscriptions[e.id.topic].id
                == sub;
            match valid_peer(v, peer, session, clock) {
                Err(error) => r == Err::<Arrival, Error>(error),
                Ok(t) => {
                    let open = described && t < e.expires && wanted;
                    let agrees = known && had.fingerprint == ticket.fingerprint;
                    &&& !described ==> r == Err::<Arrival, Error>(Error::Protocol("payload digest"))
                    &&& described && !(t < e.expires && wanted) ==> r == Ok::<Arrival, Error>(
                        Arrival::Tell(2),
                    )
                    &&& open && known && !agrees ==> r == Err::<Arrival, Error>(
                        Error::Protocol("conflicting message identity"),
                    )
                    &&& open && agrees && had.state is Processed ==> r == Ok::<Arrival, Error>(
                        Arrival::Tell(0),
                    )
                    &&& open && agrees && had.state is Permanent ==> r == Ok::<Arrival, Error>(
                        Arrival::Tell(2),
                    )
                    &&& open && agrees && had.state is Processing ==> r == Ok::<Arrival, Error>(
                        Arrival::Ignore,
                    )
                    &&& open && (!known || (agrees && had.state is Retryable)) && room ==> r == Ok::<
                        Arrival,
                        Error,
                    >(Arrival::Handle)
                    &&& open && (!known || (agrees && had.state is Retryable)) && !room ==> r == Ok::<
                        Arrival,
                        Error,
                    >(Arrival::Tell(1))
                },
            }
        }),
{
}

/// A message that is handled is remembered as being processed, until it expires. The peer is told
/// of any other answer with one record after what it was told before; that it is to try again is
/// remembered too.
pub proof fn law_message_is_remembered_and_answered<H>(
    v: OwnerView<H>,
    peer: Seq<u8>,
    sub: Seq<u8>,
    ticket: TicketView<H>,
    code: u64,
    waiter: H,
)
    ensures
        ({
            let e = ticket.envelope;
            let key = RecordKeyView { sub, id: e.id };
            let h = after_arrival(v, peer, sub, ticket, Arrival::Handle, waiter);
            let w = after_arrival(v, peer, sub, ticket, Arrival::Tell(code), waiter);
            &&& after_arrival(v, peer, sub, ticket, Arrival::Ignore, waiter) == v
            &&& h == (OwnerView {
                records: v.records.insert(
                    key,
                    RecordView {
                        fingerprint: ticket.fingerprint,
                        expires: e.expires,
                        state: RecordState::Processing(Disposition::Open),
                        memory: ticket.held,
                        waiter: Some(waiter),
                    },
                ),
                ..v
            })
            &&& w.peers.dom() == v.peers.dom()
            &&& forall|q: Seq<u8>| #[trigger]
                v.peers.contains_key(q) && q != peer ==> w.peers[q] == v.peers[q]
            &&& v.peers.contains_key(peer) ==> {
                &&& w.peers[peer].outbox == v.peers[peer].outbox.push(
                    ControlView::Outcome {
                        topic: e.id.topic,
                        sub,
                        epoch: e.id.publisher_epoch,
                        sequence: e.id.sequence,
                        code,
                    },
                )
                &&& w.peers[peer] == (PeerView { outbox: w.peers[peer].outbox, ..v.peers[peer] })
            }
            &&& code != 1 ==> w.records == v.records
            &&& code == 1 ==> w.records == v.records.insert(
                key,
                RecordView {
                    fingerprint: ticket.fingerprint,
                    expires: e.expires,
                    state: RecordState::Retryable,
                    memory: ticket.held,
                    waiter: None,
                },
            )
            &&& w == (OwnerView { peers: w.peers, records: w.records, ..v })
        }),
{
}

/// What a handler says of a message is noted while the message is being processed, and only then.
pub proof fn law_what_a_handler_says_is_noted<H>(
    v: OwnerView<H>,
    key: RecordKeyView,
    said: Disposition,
)
    ensures
        ({
            let w = with_disposition(v, key, said);
            let open = v.records.contains_key(key) && v.records[key].state is Processing;
            &&& !open ==> w == v
            &&& open ==> {
                &&& w.records.dom() == v.records.dom()
                &&& forall|k: RecordKeyView| #[trigger]
                    v.records.contains_key(k) && k != key ==> w.records[k] == v.records[k]
                &&& w.records[key].state == RecordState::Processing(said)
                &&& w.records[key] == (RecordView {
                    state: w.records[key].state,
                    ..v.records[key]
                })
                &&& w == (OwnerView { records: w.records, ..v })
            }
        }),
{
}

// Room for messages

/// A grant is for a frame with the largest payload that both sides take. The peer is told of it
/// with one record after what it was told before, waits no more, and has it until it is used.
pub proof fn law_room_is_granted<H>(v: OwnerView<H>, topic: Seq<char>, peer: Seq<u8>, held: H)
    requires
        v.config.max_payload + 16396 <= usize::MAX,
    ensures
        ({
            let w = with_grant(v, topic, peer, held);
            let s = v.subscriptions[topic];
            let p = v.peers[peer];
            let most = if v.config.max_payload < p.reg.max_payload {
                v.config.max_payload as int
            } else {
                p.reg.max_payload as int
            };
            let there = v.peers.contains_key(peer) && v.subscriptions.contains_key(topic);
            &&& !there ==> w == v
            &&& there ==> {
                &&& w.peers == v.peers.insert(
                    peer,
                    PeerView {
                        outbox: p.outbox.push(
                            ControlView::Credit { topic, sub: s.id, bytes: (most + 16396) as u64 },
                        ),
                        ..p
                    },
                )
                &&& w.subscriptions == v.subscriptions.insert(
                    topic,
                    SubscriptionView {
                        demand: s.demand.remove(peer),
                        grants: s.grants.insert(
                            peer,
                            CreditView { bytes: (most + 16396) as usize, held },
                        ),
                        ..s
                    },
                )
                &&& w == (OwnerView { peers: w.peers, subscriptions: w.subscriptions, ..v })
            }
        }),
{
}

/// What a grant takes: room for the largest payload and 256 bytes more, 6144 bytes for what is
/// remembered of the message, and 256 for its way to the handler.
pub proof fn law_room_has_its_price<H>(v: OwnerView<H>, topic: Seq<char>, peer: Seq<u8>)
    requires
        v.config.max_payload + 16396 <= usize::MAX,
    ensures
        ({
            let r = crate::credits::credit_needed(v, topic, peer);
            let p = v.peers[peer];
            let most = if v.config.max_payload < p.reg.max_payload {
                v.config.max_payload as int
            } else {
                p.reg.max_payload as int
            };
            let there = v.peers.contains_key(peer) && v.subscriptions.contains_key(topic);
            &&& !there <==> r is None
            &&& r matches Some(c) ==> c.bytes == most + 16396 && c.payload == most + 256
                && c.metadata == 6144 && c.transit == 256
        }),
{
}

/// Those who wait for room are considered in turn, beginning with the one that the cursor points to
/// and going round. The cursor then moves on by one, and nothing else changes.
pub proof fn law_those_who_wait_take_turns<H>(v: OwnerView<H>, clock: Option<u64>, i: int)
    ensures
        ({
            let all = waiting(listing::<Topic, SubscriptionView<H>>(v.subscriptions));
            let q = queue(v, clock);
            let w = after_queue(v, clock);
            &&& valid_time(v, clock) is Err ==> q.len() == 0
            &&& valid_time(v, clock) is Ok ==> q.len() == all.len()
            &&& 0 <= i < q.len() ==> q[i] == all[(v.cursor as int + i) % all.len() as int]
            &&& q.len() == 0 ==> w == v
            &&& q.len() > 0 && v.cursor < usize::MAX ==> w.cursor == v.cursor + 1
            &&& q.len() > 0 && v.cursor == usize::MAX ==> w.cursor == 0
            &&& w == (OwnerView { cursor: w.cursor, ..v })
        }),
{
    let all = waiting(listing::<Topic, SubscriptionView<H>>(v.subscriptions));
    let q = queue(v, clock);
    if 0 <= i < q.len() {
        let n = all.len() as int;
        let c = v.cursor as int;
        let k = c % n;
        let times = c / n;
        vstd::arithmetic::div_mod::lemma_fundamental_div_mod(c, n);
        if i < n - k {
            assert(q[i] == all[k + i]);
            assert(c + i == times * n + (k + i)) by (nonlinear_arith)
                requires
                    c == n * times + k,
            ;
            vstd::arithmetic::div_mod::lemma_fundamental_div_mod_converse(c + i, n, times, k + i);
        } else {
            assert(q[i] == all[k + i - n]);
            assert(c + i == (times + 1) * n + (k + i - n)) by (nonlinear_arith)
                requires
                    c == n * times + k,
            ;
            vstd::arithmetic::div_mod::lemma_fundamental_div_mod_converse(
                c + i,
                n,
                times + 1,
                k + i - n,
            );
        }
    }
}

} // verus!
