//! What holds of an endpoint whatever happens to it.
use crate::allowances::{law_room_is_all_or_nothing, sources, CreditPermits, FundsView};
use crate::auth::{claims_allow, saturating_sum, trust_check, CertificateView};
use crate::control::{
    after_control, after_credit, after_offence, after_outcome, after_remote, after_request,
    own_message,
};
use crate::credits::{
    after_queue, considered_all, credit_needed, fund_of, funds_upto, granted_upto, maintained,
    permits_at, queue, rotated, scheduled_somehow, waiting, waiting_peers, with_grant,
};
use crate::crypto::EndpointId;
use crate::deliveries::{
    after_ending, closing, delivery_less, DeliveriesView, DeliveryKey, DeliveryKeyView, EndedView, Ending,
    PendingView, RecordKey, RecordKeyView,
};
use crate::endpoint::{Disposition, FRAME_OVERHEAD};
use crate::error::Error;
use crate::incoming::{after_arrival, after_begin, arrival, stream_refusal, Arrival, TicketView};
use crate::invite::InviteView;
use crate::lifecycle::{all_peers, dial_review, renewal_review, renewed};
use crate::message::{
    describes, signed_envelope_of, DeliveryMode, EnvelopeView, MessageIdView, Topic,
};
use crate::octets::{bytes_less, lemma_bytes_less_irreflexive};
use crate::ordered::{
    increasing, lemma_listing, lemma_listing_exists, lemma_pairs_map_index, lemma_placed, listing,
    pairs_map, placed, Key,
};
use crate::outgoing::{
    after_numbering, after_sent, attempt_due, backlog_bytes, backlog_messages, delivery_charge,
    delivery_list, eligible, first_outcomes, frame_size, last_sequence, placed_one, placed_upto,
    placing, recipients, scheduled, scheduled_one, scheduled_upto, PublicationView,
};
use crate::owner::{
    grace_of, own_id, payload_too_large, session_review, subscription_review, valid_peer, valid_time,
    with_session, with_subscription, without_peer, BindingView, OwnerView, PeerView, RecordState,
    RecordView, SessionView, SubscriptionView,
};
use crate::upkeep::{
    after_clock, after_failures, clock_time, closed_topics, credits_returned, delivery_error,
    forgotten, is_stale, judged, judged_one, judged_upto, own_error, record_list, stale_peers,
    tidied, verdict, without_closed, without_peers, without_stale, without_subscription,
    without_subscriptions,
};
use crate::wire::{data_bytes, ControlView};
use vstd::prelude::*;

verus! {

// Numbers

/// A message that is given a number has the one after the last on its topic, and the number counts
/// as used from then on, whether or not the message goes out.
pub proof fn law_sequence_advances<H>(
    v: OwnerView<H>,
    topic: Seq<char>,
    payload: Seq<u8>,
    mode: DeliveryMode,
    lifetime: nat,
    format: Seq<char>,
    clock: Option<u64>,
)
    ensures
        ({
            let (w, r) = after_numbering(v, topic, payload, mode, lifetime, format, clock);
            &&& last_sequence(w, topic) >= last_sequence(v, topic)
            &&& forall|other: Seq<char>|
                other != topic ==> #[trigger] last_sequence(w, other) == last_sequence(v, other)
            &&& r matches Ok(p) ==> {
                &&& p.envelope.id.topic == topic
                &&& p.envelope.id.publisher_epoch == v.epoch
                &&& p.envelope.id.sequence == last_sequence(v, topic) + 1
                &&& last_sequence(w, topic) == p.envelope.id.sequence
            }
        }),
{
}

/// Two messages on one topic never get the same number in one run of an endpoint, as long as the
/// second is numbered in a state in which the number of the first counts as used.
pub proof fn law_numbers_are_not_reused<H>(
    p: PublicationView,
    v: OwnerView<H>,
    topic: Seq<char>,
    payload: Seq<u8>,
    mode: DeliveryMode,
    lifetime: nat,
    format: Seq<char>,
    clock: Option<u64>,
)
    requires
        last_sequence(v, topic) >= p.envelope.id.sequence,
    ensures
        after_numbering(v, topic, payload, mode, lifetime, format, clock).1 matches Ok(q)
            ==> q.envelope.id.sequence > p.envelope.id.sequence && q.envelope.id != p.envelope.id,
{
}

// Shutting down

/// Once an endpoint shuts down, it takes on nothing new: no session, no subscription, no message,
/// no connection and no certificate.
pub proof fn law_draining_takes_nothing_on<H>(
    v: OwnerView<H>,
    peer: Seq<u8>,
    reg: SessionView<H>,
    topic: Seq<char>,
    payload: Seq<u8>,
    mode: DeliveryMode,
    lifetime: nat,
    format: Seq<char>,
    invite: InviteView,
    cert: CertificateView,
    clock: Option<u64>,
)
    requires
        v.drain is Some,
    ensures
        session_review(v, peer, reg, clock) is Err,
        subscription_review(v, topic, clock) is Err,
        after_numbering(v, topic, payload, mode, lifetime, format, clock) == (
            v,
            after_numbering(v, topic, payload, mode, lifetime, format, clock).1,
        ),
        after_numbering(v, topic, payload, mode, lifetime, format, clock).1 is Err,
        dial_review(v, invite, clock) is Err,
        renewal_review(v, cert, clock) == Err::<(), Error>(Error::ShuttingDown),
        valid_time(v, clock) is Ok ==> subscription_review(v, topic, clock) == Err::<(), Error>(
            Error::ShuttingDown,
        ),
{
}

// The clock

/// A clock that has failed is not believed again: the endpoint may not act, whatever the clock
/// says later.
pub proof fn law_clock_failure_is_final<H>(
    v: OwnerView<H>,
    clock: Option<u64>,
    later: u128,
    t: Option<u64>,
)
    requires
        v.clock_failed,
    ensures
        after_clock(v, clock, later).clock_failed,
        valid_time(after_clock(v, clock, later), t) == Err::<u64, Error>(Error::Clock),
{
}

// Bounds

/// However many sessions come up, no more peers are connected than the configuration allows.
pub proof fn law_peers_are_bounded<H>(
    v: OwnerView<H>,
    peer: Seq<u8>,
    reg: SessionView<H>,
    clock: Option<u64>,
    now: u128,
)
    requires
        v.peers.dom().finite(),
        v.peers.dom().len() <= v.config.max_peers,
        session_review(v, peer, reg, clock) == Ok::<bool, Error>(true),
    ensures
        with_session(v, peer, reg, now).peers.dom().finite(),
        with_session(v, peer, reg, now).peers.dom().len() <= v.config.max_peers,
{
    let w = with_session(v, peer, reg, now);
    assert(w.peers.dom() =~= v.peers.dom().remove(peer).insert(peer));
}

/// However many topics are subscribed to, there are no more subscriptions than the configuration
/// and the certificate allow.
pub proof fn law_subscriptions_are_bounded<H>(
    v: OwnerView<H>,
    topic: Seq<char>,
    id: Seq<u8>,
    mode: DeliveryMode,
    held: H,
    clock: Option<u64>,
)
    requires
        v.subscriptions.dom().finite(),
        subscription_review(v, topic, clock) is Ok,
    ensures
        ({
            let w = with_subscription(v, topic, id, mode, held);
            let ceiling = v.cert.claims.limits.max_subscriptions;
            &&& w.subscriptions.dom().len() <= v.config.max_topics
            &&& ceiling != 0 ==> w.subscriptions.dom().len() <= ceiling
        }),
{
    let w = with_subscription(v, topic, id, mode, held);
    assert(w.subscriptions.dom() =~= v.subscriptions.dom().insert(topic));
}

// Credit

/// Room for a frame that was not asked for is out of order, and so is more of it where some is
/// left: there is at most one grant that is not used up.
pub proof fn law_credit_is_solicited<H>(
    v: OwnerView<H>,
    peer: Seq<u8>,
    topic: Seq<char>,
    sub: Seq<u8>,
    bytes: usize,
)
    requires
        v.peers.contains_key(peer),
        v.peers[peer].outbound.contains_key(topic),
        v.peers[peer].outbound[topic].sub == sub,
        !v.peers[peer].outbound[topic].requested || v.peers[peer].outbound[topic].credit is Some,
    ensures
        after_credit(v, peer, topic, sub, bytes).1 is Err,
{
}

/// Room that was granted for an earlier subscription is never used for a later one on the topic.
pub proof fn law_old_credit_is_not_applied<H>(
    v: OwnerView<H>,
    peer: Seq<u8>,
    topic: Seq<char>,
    sub: Seq<u8>,
    bytes: usize,
)
    requires
        v.peers.contains_key(peer),
        v.peers[peer].outbound.contains_key(topic),
        v.peers[peer].outbound[topic].sub != sub,
    ensures
        after_credit(v, peer, topic, sub, bytes).0 == v,
{
}

/// A peer that comes back starts without credit, in either direction.
pub proof fn law_credit_starts_anew<H>(
    v: OwnerView<H>,
    peer: Seq<u8>,
    reg: SessionView<H>,
    now: u128,
)
    ensures
        ({
            let w = with_session(v, peer, reg, now);
            &&& w.peers[peer].outbound == Map::<Seq<char>, BindingView<H>>::empty()
            &&& forall|topic: Seq<char>| #[trigger]
                w.subscriptions.contains_key(topic) ==> {
                    &&& !w.subscriptions[topic].grants.contains_key(peer)
                    &&& !w.subscriptions[topic].demand.contains_key(peer)
                    &&& !w.subscriptions[topic].confirmed.contains(peer)
                }
        }),
{
}

/// A frame for which no room was granted is refused.
pub proof fn law_data_needs_credit<H>(
    v: OwnerView<H>,
    peer: Seq<u8>,
    session: Seq<u8>,
    sub: Seq<u8>,
    stream: u64,
    signed: Seq<u8>,
    len: nat,
    clock: Option<u64>,
)
    ensures
        after_begin(v, peer, session, sub, stream, signed, len, clock) matches (w, Ok(ticket)) ==> {
            let topic = ticket.envelope.id.topic;
            &&& v.subscriptions.contains_key(topic)
            &&& v.subscriptions[topic].id == sub
            &&& v.subscriptions[topic].confirmed.contains(peer)
            &&& v.subscriptions[topic].grants.contains_key(peer)
            &&& len + data_bytes(session, sub, signed).len() + 12
                <= v.subscriptions[topic].grants[peer].bytes
            &&& !w.subscriptions[topic].grants.contains_key(peer)
        },
{
}

// Messages that come in

/// A message gets to a handler only if nothing is known of it, or if it is to be tried again.
pub proof fn law_handled_once<H>(
    v: OwnerView<H>,
    peer: Seq<u8>,
    session: Seq<u8>,
    sub: Seq<u8>,
    ticket: TicketView<H>,
    payload: Seq<u8>,
    room: bool,
    clock: Option<u64>,
)
    ensures
        arrival(v, peer, session, sub, ticket, payload, room, clock) == Ok::<Arrival, Error>(
            Arrival::Handle,
        ) ==> {
            let key = RecordKeyView { sub, id: ticket.envelope.id };
            !v.records.contains_key(key) || v.records[key].state is Retryable
        },
{
}

/// A message that a handler has is not given to another, however often it comes in meanwhile.
pub proof fn law_duplicate_is_ignored<H>(
    v: OwnerView<H>,
    peer: Seq<u8>,
    session: Seq<u8>,
    sub: Seq<u8>,
    ticket: TicketView<H>,
    payload: Seq<u8>,
    room: bool,
    again: bool,
    waiter: H,
    clock: Option<u64>,
)
    requires
        arrival(v, peer, session, sub, ticket, payload, room, clock) == Ok::<Arrival, Error>(
            Arrival::Handle,
        ),
    ensures
        ({
            let w = after_arrival(v, peer, sub, ticket, Arrival::Handle, waiter);
            arrival(w, peer, session, sub, ticket, payload, again, clock) == Ok::<Arrival, Error>(
                Arrival::Ignore,
            )
        }),
{
}

/// A message that is processed is acknowledged again whenever it comes in again.
pub proof fn law_processed_is_acknowledged_again<H>(
    v: OwnerView<H>,
    peer: Seq<u8>,
    session: Seq<u8>,
    sub: Seq<u8>,
    ticket: TicketView<H>,
    payload: Seq<u8>,
    room: bool,
    clock: Option<u64>,
)
    requires
        ({
            let key = RecordKeyView { sub, id: ticket.envelope.id };
            &&& v.records.contains_key(key)
            &&& v.records[key].state is Processed
            &&& v.records[key].fingerprint == ticket.fingerprint
        }),
        valid_peer(v, peer, session, clock) matches Ok(t) && t < ticket.envelope.expires,
        describes(ticket.envelope, payload),
        v.subscriptions.contains_key(ticket.envelope.id.topic),
        v.subscriptions[ticket.envelope.id.topic].id == sub,
    ensures
        arrival(v, peer, session, sub, ticket, payload, room, clock) == Ok::<Arrival, Error>(
            Arrival::Tell(0),
        ),
{
}

/// Another message under an identity that is taken is never handled: it is out of order, or refused
/// because its time or its subscription is over.
pub proof fn law_conflicting_identity_is_refused<H>(
    v: OwnerView<H>,
    peer: Seq<u8>,
    session: Seq<u8>,
    sub: Seq<u8>,
    ticket: TicketView<H>,
    payload: Seq<u8>,
    room: bool,
    clock: Option<u64>,
)
    requires
        ({
            let key = RecordKeyView { sub, id: ticket.envelope.id };
            v.records.contains_key(key) && v.records[key].fingerprint != ticket.fingerprint
        }),
    ensures
        arrival(v, peer, session, sub, ticket, payload, room, clock) matches Ok(a) ==> a
            == Arrival::Tell(2),
{
}

/// A handler's verdict is what the publisher is told and what is remembered: that the message is
/// processed, that it should be tried again, or that it is refused.
pub proof fn law_verdict_is_told<H>(v: OwnerView<H>, key: RecordKeyView, t: u64, said: Disposition)
    requires
        v.records.contains_key(key),
        v.records[key].state == RecordState::Processing(said),
        t < v.records[key].expires,
        said != Disposition::Open,
    ensures
        ({
            let w = judged_one(v, key, t, None);
            let code = match said {
                Disposition::Processed => 0u64,
                Disposition::Retryable => 1,
                _ => 2,
            };
            let publisher = key.id.publisher_endpoint_id;
            &&& w.replies.contains_key(key) && w.replies[key].result is Ok && w.replies[key].waiter
                == v.records[key].waiter
            &&& w.records[key].state == match said {
                Disposition::Processed => RecordState::Processed,
                Disposition::Retryable => RecordState::Retryable,
                _ => RecordState::Permanent,
            }
            &&& v.peers.contains_key(publisher) ==> w.peers[publisher].outbox
                == v.peers[publisher].outbox.push(
                ControlView::Outcome {
                    topic: key.id.topic,
                    sub: key.sub,
                    epoch: key.id.publisher_epoch,
                    sequence: key.id.sequence,
                    code,
                },
            )
        }),
{
}

// Deliveries

/// A delivery that ends has its outcome told to who waits for it, and is no longer on its way; any
/// other goes on as it was.
pub proof fn law_every_ending_is_told<H>(
    d: DeliveriesView<H>,
    ending: Ending<H>,
    grace: u64,
    k: DeliveryKeyView,
)
    requires
        d.pending.contains_key(k),
    ensures
        ({
            let after = after_ending(d, ending, grace);
            match ending(k, d.pending[k]) {
                Some(outcome) => !after.pending.contains_key(k) && after.ended.contains_key(k)
                    && after.ended[k] == (EndedView { outcome, held: d.pending[k].held }),
                None => after.pending.contains_key(k) && after.pending[k] == d.pending[k],
            }
        }),
{
}

/// An acknowledgement that comes when an attempted delivery is already over is in order, and
/// changes nothing.
pub proof fn law_late_acknowledgement_is_harmless<H>(
    v: OwnerView<H>,
    ending: Ending<H>,
    grace: u64,
    k: DeliveryKeyView,
    code: u64,
    now: u128,
)
    requires
        v.deliveries.pending.contains_key(k),
        v.deliveries.pending[k].attempts > 0,
        ending(k, v.deliveries.pending[k]) is Some,
    ensures
        ({
            let w = OwnerView { deliveries: after_ending(v.deliveries, ending, grace), ..v };
            after_outcome(w, k, code, now) == (w, Ok::<(), Error>(()))
        }),
{
}

/// An acknowledgement of what was never sent to the peer is out of order, and the peer is let go.
pub proof fn law_stray_acknowledgement_ends_session<H>(
    v: OwnerView<H>,
    peer: Seq<u8>,
    session: Seq<u8>,
    topic: Seq<char>,
    sub: Seq<u8>,
    epoch: Seq<u8>,
    sequence: u64,
    code: u64,
    writer: Result<H, Error>,
    clock: Option<u64>,
    now: u128,
)
    requires
        v.peers.contains_key(peer),
        v.peers[peer].reg.session == session,
        ({
            let k = DeliveryKeyView {
                peer,
                sub,
                id: own_message(v, epoch, topic, sequence),
            };
            &&& !v.deliveries.closed.contains_key(k)
            &&& v.deliveries.pending.contains_key(k) ==> v.deliveries.pending[k].attempts == 0
        }),
    ensures
        ({
            let c = ControlView::Outcome { topic, sub, epoch, sequence, code };
            let w = after_remote(v, peer, session, c, writer, clock, now);
            w == after_offence(v, peer, now) && !w.peers.contains_key(peer)
        }),
{
}

/// A delivery that cannot be repeated is over when its peer goes away, and is over once it is sent.
pub proof fn law_best_effort_is_not_repeated<H>(
    v: OwnerView<H>,
    k: DeliveryKeyView,
    session: Seq<u8>,
    result: Result<(), Error>,
    now: u128,
)
    requires
        v.deliveries.pending.contains_key(k),
        v.deliveries.pending[k].envelope.mode == DeliveryMode::BestEffort,
    ensures
        !without_peer(v, k.peer, now).deliveries.pending.contains_key(k),
        v.peers.contains_key(k.peer) && v.peers[k.peer].reg.session == session ==> !after_sent(
            v,
            k,
            session,
            result,
            now,
        ).deliveries.pending.contains_key(k),
{
}

/// A delivery that can be repeated waits for its peer to come back, ready for another attempt.
pub proof fn law_acknowledged_waits_for_its_peer<H>(v: OwnerView<H>, k: DeliveryKeyView, now: u128)
    requires
        v.deliveries.pending.contains_key(k),
        v.deliveries.pending[k].envelope.mode == DeliveryMode::Acknowledged,
    ensures
        ({
            let w = without_peer(v, k.peer, now);
            &&& w.deliveries.pending.contains_key(k)
            &&& w.deliveries.pending[k].envelope == v.deliveries.pending[k].envelope
            &&& w.deliveries.pending[k].signed == v.deliveries.pending[k].signed
            &&& !w.deliveries.pending[k].writing
            &&& w.deliveries.pending[k].next == now
        }),
{
}

/// A delivery whose time is over is never sent.
pub proof fn law_expired_is_not_sent<H>(
    v: OwnerView<H>,
    k: DeliveryKeyView,
    clock: Option<u64>,
    now: u128,
    jitter: u16,
)
    requires
        v.deliveries.pending.contains_key(k),
        v.deliveries.pending[k].deadline <= now || (clock matches Some(t) && t
            >= v.deliveries.pending[k].envelope.expires),
    ensures
        scheduled_one(v, k, clock, now, jitter) == v,
{
}

// Everything that is seen to

/// Whether a delivery is still on its way, or its outcome waits to be told.
pub open spec fn accounted<H>(d: DeliveriesView<H>, k: DeliveryKeyView) -> bool {
    d.pending.contains_key(k) || d.ended.contains_key(k)
}

proof fn lemma_without_peers_accounted<H>(
    v: OwnerView<H>,
    ids: Seq<Seq<u8>>,
    now: u128,
    k: DeliveryKeyView,
)
    requires
        accounted(v.deliveries, k),
    ensures
        accounted(without_peers(v, ids, now).deliveries, k),
    decreases ids.len(),
{
    if ids.len() > 0 {
        lemma_without_peers_accounted(v, ids.drop_last(), now, k);
    }
}

proof fn lemma_without_subscriptions_kept<H>(v: OwnerView<H>, topics: Seq<Seq<char>>)
    ensures
        without_subscriptions(v, topics).deliveries == v.deliveries,
        without_subscriptions(v, topics).peers.dom() == v.peers.dom(),
        without_subscriptions(v, topics).sequences == v.sequences,
        without_subscriptions(v, topics).records == v.records,
    decreases topics.len(),
{
    if topics.len() > 0 {
        lemma_without_subscriptions_kept(v, topics.drop_last());
        let w = without_subscriptions(v, topics.drop_last());
        assert(without_subscription(w, topics.last()).peers.dom() =~= w.peers.dom());
    }
}

proof fn lemma_judged_kept<H>(v: OwnerView<H>, n: nat, t: u64, error: Option<Error>)
    ensures
        judged_upto(v, n, t, error).deliveries == v.deliveries,
        judged_upto(v, n, t, error).peers.dom() == v.peers.dom(),
        judged_upto(v, n, t, error).sequences == v.sequences,
    decreases n,
{
    if n > 0 {
        lemma_judged_kept(v, (n - 1) as nat, t, error);
        let w = judged_upto(v, (n - 1) as nat, t, error);
        let x = judged_one(w, record_list(v.records)[n - 1].0, t, error);
        assert(x.peers.dom() =~= w.peers.dom());
    }
}

/// No delivery is lost: one that is on its way goes on, or its outcome waits to be told.
pub proof fn law_no_delivery_is_lost<H>(
    v: OwnerView<H>,
    clock: Option<u64>,
    now: u128,
    k: DeliveryKeyView,
)
    requires
        accounted(v.deliveries, k),
    ensures
        accounted(tidied(v, clock, now).deliveries, k),
{
    let t = clock_time(clock);
    let v1 = after_clock(v, clock, now);
    let error = own_error(v1, clock);
    let stale = stale_peers(v1, listing::<EndpointId, PeerView<H>>(v1.peers), clock);
    lemma_without_peers_accounted(v1, stale, now, k);
    let v2 = without_stale(v1, clock, now);
    lemma_without_subscriptions_kept(
        v2,
        closed_topics(listing::<Topic, SubscriptionView<H>>(v2.subscriptions)),
    );
    let v3 = without_closed(v2);
    lemma_judged_kept(v3, record_list(v3.records).len(), t, error);
    let v4 = forgotten(judged(v3, t, error), t);
    assert(accounted(v4.deliveries, k));
    assert(accounted(after_failures(v4, error, t, now).deliveries, k));
}

proof fn lemma_stale_is_listed<H>(
    v: OwnerView<H>,
    s: Seq<(Seq<u8>, PeerView<H>)>,
    clock: Option<u64>,
    i: int,
)
    requires
        0 <= i < s.len(),
        is_stale(v, s[i].0, s[i].1, clock),
    ensures
        stale_peers(v, s, clock).contains(s[i].0),
    decreases s.len(),
{
    let before = stale_peers(v, s.drop_last(), clock);
    if i == s.len() - 1 {
        assert(before.push(s.last().0).last() == s[i].0);
    } else {
        lemma_stale_is_listed(v, s.drop_last(), clock, i);
        let j = choose|j: int| 0 <= j < before.len() && before[j] == s[i].0;
        assert(before.push(s.last().0)[j] == s[i].0);
    }
}

proof fn lemma_without_peers_gone<H>(v: OwnerView<H>, ids: Seq<Seq<u8>>, now: u128)
    ensures
        forall|id: Seq<u8>| #[trigger]
            without_peers(v, ids, now).peers.contains_key(id) == (v.peers.contains_key(id)
                && !ids.contains(id)),
    decreases ids.len(),
{
    if ids.len() > 0 {
        lemma_without_peers_gone(v, ids.drop_last(), now);
        assert forall|id: Seq<u8>| #[trigger]
            without_peers(v, ids, now).peers.contains_key(id) == (v.peers.contains_key(id)
                && !ids.contains(id)) by {
            let w = without_peers(v, ids.drop_last(), now);
            assert(w.peers.contains_key(id) == (v.peers.contains_key(id)
                && !ids.drop_last().contains(id)));
            if ids.drop_last().contains(id) {
                let j = choose|j: int|
                    0 <= j < ids.drop_last().len() && ids.drop_last()[j] == id;
                assert(ids[j] == id);
            }
            if ids.contains(id) && id != ids.last() {
                let j = choose|j: int| 0 <= j < ids.len() && ids[j] == id;
                assert(ids.drop_last()[j] == id);
            }
        }
    }
}

/// A peer that may no longer act, because its certificate is revoked or has run out or because
/// this endpoint itself may not act, is let go, and so is one whose connection is gone.
pub proof fn law_stale_peer_is_let_go<H>(
    v: OwnerView<H>,
    clock: Option<u64>,
    now: u128,
    peer: Seq<u8>,
)
    requires
        v.peers.dom().finite(),
        v.peers.contains_key(peer),
        is_stale(after_clock(v, clock, now), peer, v.peers[peer], clock),
    ensures
        !tidied(v, clock, now).peers.contains_key(peer),
{
    let t = clock_time(clock);
    let v1 = after_clock(v, clock, now);
    let error = own_error(v1, clock);
    let s = listing::<EndpointId, PeerView<H>>(v1.peers);
    lemma_listing_exists::<EndpointId, PeerView<H>>(v1.peers);
    assert(pairs_map(s).contains_key(peer));
    let i = choose|i: int| 0 <= i < s.len() && (#[trigger] s[i]).0 == peer;
    lemma_pairs_map_index::<EndpointId, PeerView<H>>(s, i);
    lemma_stale_is_listed(v1, s, clock, i);
    lemma_without_peers_gone(v1, stale_peers(v1, s, clock), now);
    let v2 = without_stale(v1, clock, now);
    assert(!v2.peers.contains_key(peer));
    lemma_without_subscriptions_kept(
        v2,
        closed_topics(listing::<Topic, SubscriptionView<H>>(v2.subscriptions)),
    );
    let v3 = without_closed(v2);
    assert(!v3.peers.dom().contains(peer));
    lemma_judged_kept(v3, record_list(v3.records).len(), t, error);
    let v4 = forgotten(judged(v3, t, error), t);
    assert(!v4.peers.dom().contains(peer));
    assert(!after_failures(v4, error, t, now).peers.dom().contains(peer));
}

proof fn lemma_without_peers_keeps<H>(v: OwnerView<H>, ids: Seq<Seq<u8>>, now: u128)
    ensures
        ({
            let w = without_peers(v, ids, now);
            &&& w.epoch == v.epoch
            &&& w.secret == v.secret
            &&& w.cert == v.cert
            &&& w.config == v.config
            &&& w.sequences == v.sequences
            &&& w.subscriptions.dom() == v.subscriptions.dom()
            &&& forall|topic: Seq<char>| #[trigger]
                w.subscriptions.contains_key(topic) ==> w.subscriptions[topic].id
                    == v.subscriptions[topic].id && w.subscriptions[topic].mode
                    == v.subscriptions[topic].mode
            &&& forall|k: DeliveryKeyView| #[trigger]
                v.deliveries.pending.contains_key(k) && v.deliveries.pending[k].envelope.mode
                    == DeliveryMode::Acknowledged ==> w.deliveries.pending.contains_key(k)
                    && w.deliveries.pending[k].envelope == v.deliveries.pending[k].envelope
                    && w.deliveries.pending[k].signed == v.deliveries.pending[k].signed
        }),
    decreases ids.len(),
{
    if ids.len() > 0 {
        let u = without_peers(v, ids.drop_last(), now);
        lemma_without_peers_keeps(v, ids.drop_last(), now);
        let w = without_peer(u, ids.last(), now);
        assert(w.subscriptions.dom() =~= u.subscriptions.dom());
        assert forall|topic: Seq<char>| #[trigger]
            w.subscriptions.contains_key(topic) implies w.subscriptions[topic].id
            == v.subscriptions[topic].id && w.subscriptions[topic].mode
            == v.subscriptions[topic].mode by {
            assert(u.subscriptions.contains_key(topic));
        }
        assert forall|k: DeliveryKeyView| #[trigger]
            v.deliveries.pending.contains_key(k) && v.deliveries.pending[k].envelope.mode
                == DeliveryMode::Acknowledged implies w.deliveries.pending.contains_key(k)
            && w.deliveries.pending[k].envelope == v.deliveries.pending[k].envelope
            && w.deliveries.pending[k].signed == v.deliveries.pending[k].signed by {
            assert(u.deliveries.pending.contains_key(k));
        }
    }
}

/// Another certificate ends every session, and changes neither who the endpoint is nor its run nor
/// its numbers. Messages that can be repeated stay on their way as they were signed, and the
/// subscriptions that the certificate still allows keep their identifiers.
pub proof fn law_renewal_keeps<H>(v: OwnerView<H>, c: CertificateView, now: u128)
    requires
        v.peers.dom().finite(),
    ensures
        ({
            let w = renewed(v, c, now);
            &&& w.peers == Map::<Seq<u8>, PeerView<H>>::empty()
            &&& w.cert == c
            &&& own_id(w) == own_id(v)
            &&& w.epoch == v.epoch
            &&& w.sequences == v.sequences
            &&& forall|topic: Seq<char>| #[trigger]
                w.subscriptions.contains_key(topic) == (v.subscriptions.contains_key(topic)
                    && claims_allow(c.claims, topic, false))
            &&& forall|topic: Seq<char>| #[trigger]
                w.subscriptions.contains_key(topic) ==> w.subscriptions[topic].id
                    == v.subscriptions[topic].id && w.subscriptions[topic].mode
                    == v.subscriptions[topic].mode
            &&& forall|k: DeliveryKeyView| #[trigger]
                v.deliveries.pending.contains_key(k) && v.deliveries.pending[k].envelope.mode
                    == DeliveryMode::Acknowledged ==> w.deliveries.pending.contains_key(k)
                    && w.deliveries.pending[k].envelope == v.deliveries.pending[k].envelope
                    && w.deliveries.pending[k].signed == v.deliveries.pending[k].signed
        }),
{
    let u = OwnerView { cert: c, ..v };
    let x = without_peers(u, all_peers(v), now);
    lemma_without_peers_keeps(u, all_peers(v), now);
    lemma_without_peers_gone(u, all_peers(v), now);
    let w = renewed(v, c, now);
    assert(w.peers =~= Map::<Seq<u8>, PeerView<H>>::empty()) by {
        let s = listing::<EndpointId, PeerView<H>>(v.peers);
        lemma_listing_exists::<EndpointId, PeerView<H>>(v.peers);
        assert forall|id: Seq<u8>| !w.peers.contains_key(id) by {
            if v.peers.contains_key(id) {
                assert(pairs_map(s).contains_key(id));
                let i = choose|i: int| 0 <= i < s.len() && (#[trigger] s[i]).0 == id;
                assert(all_peers(v)[i] == id);
            }
            assert(x.peers.contains_key(id) == (u.peers.contains_key(id) && !all_peers(
                v,
            ).contains(id)));
        }
    }
    assert forall|topic: Seq<char>| #[trigger]
        w.subscriptions.contains_key(topic) == (v.subscriptions.contains_key(topic)
            && claims_allow(c.claims, topic, false)) by {
        assert(x.subscriptions.dom().contains(topic) == u.subscriptions.dom().contains(topic));
    }
    assert forall|topic: Seq<char>| #[trigger]
        w.subscriptions.contains_key(topic) implies w.subscriptions[topic].id
        == v.subscriptions[topic].id && w.subscriptions[topic].mode
        == v.subscriptions[topic].mode by {
        assert(x.subscriptions.contains_key(topic));
    }
    assert forall|k: DeliveryKeyView| #[trigger]
        v.deliveries.pending.contains_key(k) && v.deliveries.pending[k].envelope.mode
            == DeliveryMode::Acknowledged implies w.deliveries.pending.contains_key(k)
        && w.deliveries.pending[k].envelope == v.deliveries.pending[k].envelope
        && w.deliveries.pending[k].signed == v.deliveries.pending[k].signed by {
        assert(u.deliveries.pending.contains_key(k));
        assert(x.deliveries.pending.contains_key(k));
    }
}

// Room that is granted

proof fn lemma_waiting_peers<H>(
    topic: Seq<char>,
    s: SubscriptionView<H>,
    d: Seq<(Seq<u8>, usize)>,
)
    requires
        forall|i: int| 0 <= i < d.len() ==> s.demand.contains_key((#[trigger] d[i]).0),
    ensures
        forall|i: int|
            0 <= i < waiting_peers(topic, s, d).len() ==> {
                let (t, peer) = #[trigger] waiting_peers(topic, s, d)[i];
                t == topic && s.confirmed.contains(peer) && s.demand.contains_key(peer)
                    && !s.grants.contains_key(peer)
            },
    decreases d.len(),
{
    if d.len() > 0 {
        assert forall|i: int| 0 <= i < d.drop_last().len() implies s.demand.contains_key(
            (#[trigger] d.drop_last()[i]).0,
        ) by {
            assert(d.drop_last()[i] == d[i]);
        }
        lemma_waiting_peers(topic, s, d.drop_last());
        assert(s.demand.contains_key(d[d.len() - 1].0));
        let before = waiting_peers(topic, s, d.drop_last());
        let after = waiting_peers(topic, s, d);
        assert forall|i: int| 0 <= i < after.len() implies {
            let (t, peer) = #[trigger] after[i];
            t == topic && s.confirmed.contains(peer) && s.demand.contains_key(peer)
                && !s.grants.contains_key(peer)
        } by {
            if i < before.len() {
                assert(after[i] == before[i]);
            }
        }
    }
}

/// Whether a peer may be granted room at a subscription: it wants it, it has accepted the
/// subscription, and it has no grant that is not used up.
pub open spec fn may_be_granted<H>(
    m: Map<Seq<char>, SubscriptionView<H>>,
    topic: Seq<char>,
    peer: Seq<u8>,
) -> bool {
    &&& m.contains_key(topic)
    &&& m[topic].demand.contains_key(peer)
    &&& m[topic].confirmed.contains(peer)
    &&& !m[topic].grants.contains_key(peer)
}

proof fn lemma_waiting<H>(
    m: Map<Seq<char>, SubscriptionView<H>>,
    s: Seq<(Seq<char>, SubscriptionView<H>)>,
)
    requires
        forall|i: int|
            0 <= i < s.len() ==> m.contains_key((#[trigger] s[i]).0) && m[s[i].0] == s[i].1,
        forall|topic: Seq<char>| #[trigger]
            m.contains_key(topic) ==> m[topic].demand.dom().finite(),
    ensures
        forall|i: int|
            0 <= i < waiting(s).len() ==> may_be_granted(
                m,
                (#[trigger] waiting(s)[i]).0,
                waiting(s)[i].1,
            ),
    decreases s.len(),
{
    if s.len() > 0 {
        let most = s.drop_last();
        assert forall|i: int| 0 <= i < most.len() implies m.contains_key((#[trigger] most[i]).0)
            && m[most[i].0] == most[i].1 by {
            assert(most[i] == s[i]);
        }
        lemma_waiting(m, most);
        let (topic, sub) = s.last();
        assert(m.contains_key(s[s.len() - 1].0) && m[topic] == sub);
        let d = listing::<EndpointId, usize>(sub.demand);
        lemma_listing_exists::<EndpointId, usize>(sub.demand);
        assert forall|i: int| 0 <= i < d.len() implies sub.demand.contains_key(
            (#[trigger] d[i]).0,
        ) by {
            lemma_pairs_map_index::<EndpointId, usize>(d, i);
        }
        lemma_waiting_peers(topic, sub, d);
        let a = waiting(most);
        let b = waiting_peers(topic, sub, d);
        assert forall|i: int| 0 <= i < waiting(s).len() implies may_be_granted(
            m,
            (#[trigger] waiting(s)[i]).0,
            waiting(s)[i].1,
        ) by {
            if i < a.len() {
                assert(waiting(s)[i] == a[i]);
            } else {
                assert(waiting(s)[i] == b[i - a.len()]);
            }
        }
    }
}

/// Room is granted only to peers that asked for it, that have accepted the subscription, and that
/// have no grant left: an idle peer takes no room from the others.
pub proof fn law_credit_goes_to_those_who_wait<H>(v: OwnerView<H>, clock: Option<u64>)
    requires
        v.subscriptions.dom().finite(),
        forall|topic: Seq<char>| #[trigger]
            v.subscriptions.contains_key(topic) ==> v.subscriptions[topic].demand.dom().finite(),
    ensures
        forall|i: int|
            0 <= i < queue(v, clock).len() ==> may_be_granted(
                v.subscriptions,
                (#[trigger] queue(v, clock)[i]).0,
                queue(v, clock)[i].1,
            ),
{
    let m = v.subscriptions;
    let s = listing::<Topic, SubscriptionView<H>>(m);
    lemma_listing_exists::<Topic, SubscriptionView<H>>(m);
    assert forall|i: int| 0 <= i < s.len() implies m.contains_key((#[trigger] s[i]).0)
        && m[s[i].0] == s[i].1 by {
        lemma_pairs_map_index::<Topic, SubscriptionView<H>>(s, i);
    }
    lemma_waiting(m, s);
    let all = waiting(s);
    if queue(v, clock).len() > 0 {
        let k = v.cursor as int % all.len() as int;
        assert(0 <= k < all.len());
        assert forall|i: int| 0 <= i < queue(v, clock).len() implies may_be_granted(
            m,
            (#[trigger] queue(v, clock)[i]).0,
            queue(v, clock)[i].1,
        ) by {
            let j = if i < all.len() - k {
                i + k
            } else {
                i - (all.len() - k)
            };
            assert(rotated(all, k)[i] == all[j]);
        }
    }
}

proof fn lemma_waiting_peer_listed<H>(
    topic: Seq<char>,
    s: SubscriptionView<H>,
    d: Seq<(Seq<u8>, usize)>,
    i: int,
)
    requires
        0 <= i < d.len(),
        s.confirmed.contains(d[i].0),
        !s.grants.contains_key(d[i].0),
    ensures
        waiting_peers(topic, s, d).contains((topic, d[i].0)),
    decreases d.len(),
{
    let before = waiting_peers(topic, s, d.drop_last());
    let after = waiting_peers(topic, s, d);
    if i == d.len() - 1 {
        assert(after == before.push((topic, d[i].0)));
        assert(after[after.len() - 1] == (topic, d[i].0));
    } else {
        assert(d.drop_last()[i] == d[i]);
        lemma_waiting_peer_listed(topic, s, d.drop_last(), i);
        let j = choose|j: int| 0 <= j < before.len() && before[j] == (topic, d[i].0);
        assert(after[j] == before[j]);
    }
}

proof fn lemma_waiting_listed<H>(s: Seq<(Seq<char>, SubscriptionView<H>)>, i: int, peer: Seq<u8>)
    requires
        0 <= i < s.len(),
        s[i].1.demand.dom().finite(),
        s[i].1.demand.contains_key(peer),
        s[i].1.confirmed.contains(peer),
        !s[i].1.grants.contains_key(peer),
    ensures
        waiting(s).contains((s[i].0, peer)),
    decreases s.len(),
{
    let before = waiting(s.drop_last());
    let (topic, sub) = s.last();
    let d = listing::<EndpointId, usize>(sub.demand);
    let here = waiting_peers(topic, sub, d);
    if i == s.len() - 1 {
        lemma_listing_exists::<EndpointId, usize>(sub.demand);
        assert(pairs_map(d).contains_key(peer));
        let j = choose|j: int| 0 <= j < d.len() && (#[trigger] d[j]).0 == peer;
        lemma_waiting_peer_listed(topic, sub, d, j);
        let k = choose|k: int| 0 <= k < here.len() && here[k] == (topic, peer);
        assert(waiting(s)[before.len() + k] == here[k]);
    } else {
        assert(s.drop_last()[i] == s[i]);
        lemma_waiting_listed(s.drop_last(), i, peer);
        let k = choose|k: int| 0 <= k < before.len() && before[k] == (s[i].0, peer);
        assert(waiting(s)[k] == before[k]);
    }
}

/// Whoever may be granted room is considered: nobody who asked for it is passed over.
pub proof fn law_nobody_who_waits_is_passed_over<H>(
    v: OwnerView<H>,
    clock: Option<u64>,
    topic: Seq<char>,
    peer: Seq<u8>,
)
    requires
        v.subscriptions.dom().finite(),
        may_be_granted(v.subscriptions, topic, peer),
        v.subscriptions[topic].demand.dom().finite(),
        valid_time(v, clock) is Ok,
    ensures
        queue(v, clock).contains((topic, peer)),
{
    let m = v.subscriptions;
    let s = listing::<Topic, SubscriptionView<H>>(m);
    lemma_listing_exists::<Topic, SubscriptionView<H>>(m);
    assert(pairs_map(s).contains_key(topic));
    let i = choose|i: int| 0 <= i < s.len() && (#[trigger] s[i]).0 == topic;
    lemma_pairs_map_index::<Topic, SubscriptionView<H>>(s, i);
    lemma_waiting_listed(s, i, peer);
    let all = waiting(s);
    let j = choose|j: int| 0 <= j < all.len() && all[j] == (topic, peer);
    let k = v.cursor as int % all.len() as int;
    assert(0 <= k < all.len());
    let at = if j >= k {
        j - k
    } else {
        all.len() - k + j
    };
    assert(rotated(all, k)[at] == all[j]);
}

/// A request for room is not lost where it overtakes the frame that uses the room granted before:
/// once that frame has come in, its sender is considered again without another request, and is told
/// of the room as soon as it can be set aside.
pub proof fn law_request_outlives_a_grant<H>(
    v: OwnerView<H>,
    peer: Seq<u8>,
    topic: Seq<char>,
    sub: Seq<u8>,
    bytes: usize,
    session: Seq<u8>,
    stream: u64,
    signed: Seq<u8>,
    len: nat,
    clock: Option<u64>,
    held: H,
)
    requires
        v.subscriptions.dom().finite(),
        v.subscriptions.contains_key(topic),
        v.subscriptions[topic].demand.dom().finite(),
        v.subscriptions[topic].id == sub,
        v.subscriptions[topic].confirmed.contains(peer),
        v.subscriptions[topic].grants.contains_key(peer),
        0 < bytes <= v.config.max_payload + FRAME_OVERHEAD,
    ensures
        ({
            let (asked, r) = after_request(v, peer, topic, sub, bytes);
            let (w, taken) = after_begin(asked, peer, session, sub, stream, signed, len, clock);
            &&& r is Ok
            &&& asked.subscriptions[topic].grants == v.subscriptions[topic].grants
            &&& taken is Ok && taken->Ok_0.envelope.id.topic == topic ==> {
                &&& queue(w, clock).contains((topic, peer))
                &&& credit_needed(w, topic, peer) matches Some(charge) ==> with_grant(
                    w,
                    topic,
                    peer,
                    held,
                ).peers[peer].outbox == w.peers[peer].outbox.push(
                    ControlView::Credit { topic, sub, bytes: charge.bytes as u64 },
                )
            }
        }),
{
    let (asked, r) = after_request(v, peer, topic, sub, bytes);
    let (w, taken) = after_begin(asked, peer, session, sub, stream, signed, len, clock);
    if taken is Ok && taken->Ok_0.envelope.id.topic == topic {
        assert(valid_time(w, clock) == valid_time(asked, clock));
        law_nobody_who_waits_is_passed_over(w, clock, topic, peer);
    }
}

/// Everyone who waits is considered, each time someone else first: whoever stands at a place comes
/// first when the cursor points there.
pub proof fn law_everyone_is_first_in_turn<H>(v: OwnerView<H>, clock: Option<u64>, i: int)
    requires
        valid_time(v, clock) is Ok,
        0 <= i < waiting(listing::<Topic, SubscriptionView<H>>(v.subscriptions)).len(),
        v.cursor as int % waiting(listing::<Topic, SubscriptionView<H>>(v.subscriptions)).len() as int
            == i,
    ensures
        queue(v, clock)[0] == waiting(listing::<Topic, SubscriptionView<H>>(v.subscriptions))[i],
        queue(v, clock).len() == waiting(listing::<Topic, SubscriptionView<H>>(v.subscriptions)).len(),
{
}

// What is sent

/// Whether a delivery was sent within the room that its peer had granted.
pub open spec fn within_credit<H>(v: OwnerView<H>, k: DeliveryKeyView) -> bool {
    let p = v.peers[k.peer];
    let b = p.outbound[k.id.topic];
    &&& v.deliveries.pending.contains_key(k)
    &&& v.peers.contains_key(k.peer)
    &&& p.outbound.contains_key(k.id.topic)
    &&& b.sub == k.sub
    &&& b.credit matches Some(c) && frame_size(p.reg.session, k.sub, v.deliveries.pending[k]) <= c
}

/// The room that a peer has granted for a topic, if any is left.
pub open spec fn credit_left<H>(v: OwnerView<H>, peer: Seq<u8>, topic: Seq<char>) -> Option<usize> {
    if v.peers.contains_key(peer) && v.peers[peer].outbound.contains_key(topic) {
        v.peers[peer].outbound[topic].credit
    } else {
        None
    }
}

/// What holds while deliveries are looked at one after the other: `u` is the state after the first
/// `n` of the list `s`, which started from `v`.
spec fn sending<H>(
    v: OwnerView<H>,
    u: OwnerView<H>,
    s: Seq<(DeliveryKeyView, PendingView<H>)>,
    n: int,
) -> bool {
    &&& u.peers.dom() == v.peers.dom()
    &&& forall|peer: Seq<u8>| #[trigger]
        v.peers.contains_key(peer) ==> {
            &&& u.peers[peer].reg == v.peers[peer].reg
            &&& u.peers[peer].outbound.dom() == v.peers[peer].outbound.dom()
        }
    &&& forall|peer: Seq<u8>, topic: Seq<char>|
        v.peers.contains_key(peer) && v.peers[peer].outbound.contains_key(topic) ==> {
            &&& (#[trigger] u.peers[peer].outbound[topic]).sub == v.peers[peer].outbound[topic].sub
            &&& u.peers[peer].outbound[topic].credit is None || u.peers[peer].outbound[topic].credit
                == v.peers[peer].outbound[topic].credit
        }
    &&& u.deliveries.pending.dom() == v.deliveries.pending.dom()
    &&& forall|j: int|
        n <= j < s.len() ==> u.deliveries.pending[(#[trigger] s[j]).0]
            == v.deliveries.pending[s[j].0]
    &&& u.writes.len() >= v.writes.len()
    &&& u.writes.take(v.writes.len() as int) == v.writes
    &&& forall|i: int|
        v.writes.len() <= i < u.writes.len() ==> {
            &&& within_credit(v, #[trigger] u.writes[i])
            &&& credit_left(u, u.writes[i].peer, u.writes[i].id.topic) is None
        }
    &&& forall|i: int, j: int|
        v.writes.len() <= i < j < u.writes.len() ==> (#[trigger] u.writes[i]).peer != (
        #[trigger] u.writes[j]).peer || u.writes[i].id.topic != u.writes[j].id.topic
}

proof fn lemma_sending_step<H>(
    v: OwnerView<H>,
    u: OwnerView<H>,
    s: Seq<(DeliveryKeyView, PendingView<H>)>,
    n: int,
    clock: Option<u64>,
    now: u128,
    jitter: u16,
)
    requires
        sending(v, u, s, n),
        0 <= n < s.len(),
        v.deliveries.pending.contains_key(s[n].0),
        forall|j: int| n < j < s.len() ==> (#[trigger] s[j]).0 != s[n].0,
    ensures
        sending(v, scheduled_one(u, s[n].0, clock, now, jitter), s, n + 1),
{
    let key = s[n].0;
    let topic = key.id.topic;
    let w = scheduled_one(u, key, clock, now, jitter);
    if w != u {
        assert(u.peers.dom().contains(key.peer));
        assert(v.peers.contains_key(key.peer));
        assert(w.peers.dom() =~= u.peers.dom());
        assert(w.deliveries.pending.dom() =~= u.deliveries.pending.dom());
        assert(u.peers[key.peer].outbound.dom().contains(topic));
        assert(w.peers[key.peer].outbound.dom() =~= u.peers[key.peer].outbound.dom());
        assert(u.peers[key.peer].outbound[topic].sub == v.peers[key.peer].outbound[topic].sub);
        assert forall|peer: Seq<u8>, t: Seq<char>|
            v.peers.contains_key(peer) && v.peers[peer].outbound.contains_key(t) implies {
            &&& (#[trigger] w.peers[peer].outbound[t]).sub == v.peers[peer].outbound[t].sub
            &&& w.peers[peer].outbound[t].credit is None || w.peers[peer].outbound[t].credit
                == v.peers[peer].outbound[t].credit
        } by {
            assert(u.peers[peer].outbound[t].sub == v.peers[peer].outbound[t].sub);
        }
        if w.writes != u.writes {
            assert(w.writes == u.writes.push(key));
            assert(w.writes.take(v.writes.len() as int) =~= u.writes.take(v.writes.len() as int));
            assert(within_credit(v, key));
            assert forall|i: int| v.writes.len() <= i < w.writes.len() implies {
                &&& within_credit(v, #[trigger] w.writes[i])
                &&& credit_left(w, w.writes[i].peer, w.writes[i].id.topic) is None
            } by {
                if i < u.writes.len() {
                    assert(w.writes[i] == u.writes[i]);
                    assert(credit_left(u, u.writes[i].peer, u.writes[i].id.topic) is None);
                }
            }
            assert forall|i: int, j: int| v.writes.len() <= i < j < w.writes.len() implies (
            #[trigger] w.writes[i]).peer != (#[trigger] w.writes[j]).peer || w.writes[i].id.topic
                != w.writes[j].id.topic by {
                assert(w.writes[i] == u.writes[i]);
                if j < u.writes.len() {
                    assert(w.writes[j] == u.writes[j]);
                } else {
                    assert(credit_left(u, u.writes[i].peer, u.writes[i].id.topic) is None);
                    assert(credit_left(u, key.peer, topic) is Some);
                }
            }
        } else {
            assert forall|i: int| v.writes.len() <= i < w.writes.len() implies {
                &&& within_credit(v, #[trigger] w.writes[i])
                &&& credit_left(w, w.writes[i].peer, w.writes[i].id.topic) is None
            } by {
                assert(credit_left(u, u.writes[i].peer, u.writes[i].id.topic) is None);
            }
        }
    }
}

proof fn lemma_sending<H>(
    v: OwnerView<H>,
    s: Seq<(DeliveryKeyView, PendingView<H>)>,
    n: nat,
    clock: Option<u64>,
    now: u128,
    jitters: Seq<u16>,
)
    requires
        n <= s.len(),
        s == delivery_list(v.deliveries.pending),
        v.deliveries.pending.dom().finite(),
    ensures
        sending(v, scheduled_upto(v, n, clock, now, jitters), s, n as int),
    decreases n,
{
    lemma_listing_exists::<DeliveryKey, PendingView<H>>(v.deliveries.pending);
    if n == 0 {
        assert(v.writes.take(v.writes.len() as int) =~= v.writes);
    } else {
        let m = (n - 1) as nat;
        lemma_sending(v, s, m, clock, now, jitters);
        lemma_pairs_map_index::<DeliveryKey, PendingView<H>>(s, m as int);
        assert forall|j: int| m < j < s.len() implies (#[trigger] s[j]).0 != s[m as int].0 by {
            assert(delivery_less(s[m as int].0, s[j].0));
            lemma_bytes_less_irreflexive(s[j].0.peer);
            lemma_bytes_less_irreflexive(s[j].0.sub);
        }
        lemma_sending_step(
            v,
            scheduled_upto(v, m, clock, now, jitters),
            s,
            m as int,
            clock,
            now,
            jitters[m as int],
        );
    }
}

/// A message is sent only within the room that its peer has granted for its subscription, and a
/// grant is used for one message and is then used up.
pub proof fn law_sent_within_credit<H>(
    v: OwnerView<H>,
    clock: Option<u64>,
    now: u128,
    jitters: Seq<u16>,
)
    requires
        v.deliveries.pending.dom().finite(),
    ensures
        ({
            let w = scheduled(v, clock, now, jitters);
            &&& w.writes.len() >= v.writes.len()
            &&& w.writes.take(v.writes.len() as int) == v.writes
            &&& forall|i: int|
                v.writes.len() <= i < w.writes.len() ==> {
                    &&& within_credit(v, #[trigger] w.writes[i])
                    &&& credit_left(w, w.writes[i].peer, w.writes[i].id.topic) is None
                }
            &&& forall|i: int, j: int|
                v.writes.len() <= i < j < w.writes.len() ==> (#[trigger] w.writes[i]).peer != (
                #[trigger] w.writes[j]).peer || w.writes[i].id.topic != w.writes[j].id.topic
        }),
{
    let s = delivery_list(v.deliveries.pending);
    lemma_sending(v, s, s.len(), clock, now, jitters);
}

// How much is on its way

proof fn lemma_placed_backlog<H>(
    s: Seq<(DeliveryKeyView, PendingView<H>)>,
    k: DeliveryKeyView,
    p: PendingView<H>,
    peer: Seq<u8>,
)
    ensures
        ({
            let t = placed::<DeliveryKey, PendingView<H>>(s, k, p);
            &&& backlog_messages(t, peer) == backlog_messages(
                s,
                peer,
            ) + (if k.peer == peer {
                1nat
            } else {
                0
            })
            &&& backlog_bytes(t, peer) == backlog_bytes(s, peer) + (
            if k.peer == peer {
                delivery_charge(p)
            } else {
                0
            })
        }),
    decreases s.len(),
{
    let t = placed::<DeliveryKey, PendingView<H>>(s, k, p);
    reveal_with_fuel(backlog_messages, 2);
    reveal_with_fuel(backlog_bytes, 2);
    if s.len() == 0 {
        assert(t.drop_last() =~= s);
    } else {
        lemma_placed_backlog(s.drop_last(), k, p, peer);
        if delivery_less(s.last().0, k) {
            assert(t.drop_last() =~= s);
        } else {
            assert(t.drop_last() =~= placed::<DeliveryKey, PendingView<H>>(
                s.drop_last(),
                k,
                p,
            ));
            assert(t.last() == s.last());
        }
    }
}

/// Whether no peer has more on its way than the configuration allows.
pub open spec fn backlog_bounded<H>(v: OwnerView<H>) -> bool {
    let all = delivery_list(v.deliveries.pending);
    forall|peer: Seq<u8>|
        #[trigger] backlog_messages(all, peer) <= v.config.per_peer_messages
            && backlog_bytes(all, peer) <= v.config.per_peer_bytes
}

proof fn lemma_backlog_bounded_one<H>(
    v: OwnerView<H>,
    m: PublicationView,
    to: (Seq<u8>, Seq<u8>),
    held: (H, H),
    now: u128,
)
    requires
        v.deliveries.pending.dom().finite(),
        backlog_bounded(v),
        !v.deliveries.pending.contains_key(
            DeliveryKeyView { peer: to.0, sub: to.1, id: m.envelope.id },
        ),
    ensures
        backlog_bounded(placed_one(v, m, to, held, now)),
{
    let w = placed_one(v, m, to, held, now);
    let s = delivery_list(v.deliveries.pending);
    let k = DeliveryKeyView { peer: to.0, sub: to.1, id: m.envelope.id };
    if w.deliveries.pending != v.deliveries.pending {
        let p = w.deliveries.pending[k];
        lemma_listing_exists::<DeliveryKey, PendingView<H>>(v.deliveries.pending);
        lemma_placed::<DeliveryKey, PendingView<H>>(s, k, p);
        let t = placed::<DeliveryKey, PendingView<H>>(s, k, p);
        assert(v.deliveries.pending.insert(k, p) == w.deliveries.pending);
        lemma_listing::<DeliveryKey, PendingView<H>>(t);
        assert(delivery_list(w.deliveries.pending) == t);
        assert forall|peer: Seq<u8>|
            #[trigger] backlog_messages(t, peer) <= w.config.per_peer_messages
                && backlog_bytes(t, peer) <= w.config.per_peer_bytes by {
            lemma_placed_backlog(s, k, p, peer);
            assert(backlog_messages(s, peer) <= v.config.per_peer_messages);
        }
    }
}

/// The deliveries that a message is to become.
pub open spec fn delivery_to(m: PublicationView, i: int) -> DeliveryKeyView {
    DeliveryKeyView { peer: m.recipients[i].0, sub: m.recipients[i].1, id: m.envelope.id }
}

proof fn lemma_backlog_bounded_upto<H>(
    v: OwnerView<H>,
    m: PublicationView,
    held: Seq<(H, H)>,
    n: nat,
    now: u128,
)
    requires
        n <= m.recipients.len(),
        v.deliveries.pending.dom().finite(),
        backlog_bounded(v),
        forall|i: int|
            0 <= i < m.recipients.len() ==> !v.deliveries.pending.contains_key(
                #[trigger] delivery_to(m, i),
            ),
        forall|i: int, j: int|
            0 <= i < j < m.recipients.len() ==> #[trigger] m.recipients[i]
                != #[trigger] m.recipients[j],
    ensures
        backlog_bounded(placed_upto(v, m, held, n, now)),
        placed_upto(v, m, held, n, now).deliveries.pending.dom().finite(),
        forall|i: int|
            n <= i < m.recipients.len() ==> !placed_upto(
                v,
                m,
                held,
                n,
                now,
            ).deliveries.pending.contains_key(#[trigger] delivery_to(m, i)),
    decreases n,
{
    if n > 0 {
        let l = (n - 1) as nat;
        let u = placed_upto(v, m, held, l, now);
        lemma_backlog_bounded_upto(v, m, held, l, now);
        assert(!u.deliveries.pending.contains_key(delivery_to(m, l as int)));
        lemma_backlog_bounded_one(u, m, m.recipients[l as int], held[l as int], now);
        let w = placed_upto(v, m, held, n, now);
        assert forall|i: int| n <= i < m.recipients.len() implies !w.deliveries.pending.contains_key(
            #[trigger] delivery_to(m, i),
        ) by {
            assert(!u.deliveries.pending.contains_key(delivery_to(m, i)));
            assert(m.recipients[l as int] != m.recipients[i]);
            if delivery_to(m, i) == delivery_to(m, l as int) {
                assert(m.recipients[i] == (delivery_to(m, i).peer, delivery_to(m, i).sub));
                assert(m.recipients[l as int] == (delivery_to(m, i).peer, delivery_to(m, i).sub));
            }
        }
    }
}

/// However many it is published to, a message that is not on its way yet does not make any peer
/// have more messages or bytes on their way to it than the configuration allows.
pub proof fn law_publishing_keeps_backlog_bounded<H>(
    v: OwnerView<H>,
    m: PublicationView,
    held: Seq<(H, H)>,
    now: u128,
)
    requires
        v.deliveries.pending.dom().finite(),
        backlog_bounded(v),
        forall|i: int|
            0 <= i < m.recipients.len() ==> !v.deliveries.pending.contains_key(
                #[trigger] delivery_to(m, i),
            ),
        forall|i: int, j: int|
            0 <= i < j < m.recipients.len() ==> #[trigger] m.recipients[i]
                != #[trigger] m.recipients[j],
    ensures
        backlog_bounded(placed_upto(v, m, held, m.recipients.len(), now)),
{
    lemma_backlog_bounded_upto(v, m, held, m.recipients.len(), now);
}

proof fn lemma_backlog_subset<H>(
    a: Map<DeliveryKeyView, PendingView<H>>,
    b: Map<DeliveryKeyView, PendingView<H>>,
    peer: Seq<u8>,
)
    requires
        a.dom().finite(),
        forall|k: DeliveryKeyView| #[trigger]
            b.contains_key(k) ==> a.contains_key(k) && delivery_charge(b[k]) == delivery_charge(
                a[k],
            ),
    ensures
        backlog_messages(delivery_list(b), peer) <= backlog_messages(delivery_list(a), peer),
        backlog_bytes(delivery_list(b), peer) <= backlog_bytes(delivery_list(a), peer),
    decreases a.dom().len(),
{
    vstd::set_lib::lemma_set_subset_finite(a.dom(), b.dom());
    lemma_listing_exists::<DeliveryKey, PendingView<H>>(a);
    lemma_listing_exists::<DeliveryKey, PendingView<H>>(b);
    if a.dom().len() == 0 {
        assert(b.dom() =~= Set::empty());
    } else {
        let k = a.dom().choose();
        let a0 = a.remove(k);
        let b0 = b.remove(k);
        assert forall|x: DeliveryKeyView| #[trigger] b0.contains_key(x) implies a0.contains_key(x)
            && delivery_charge(b0[x]) == delivery_charge(a0[x]) by {
            assert(b.contains_key(x));
        }
        lemma_backlog_subset(a0, b0, peer);
        lemma_listing_exists::<DeliveryKey, PendingView<H>>(a0);
        lemma_placed::<DeliveryKey, PendingView<H>>(delivery_list(a0), k, a[k]);
        lemma_placed_backlog(delivery_list(a0), k, a[k], peer);
        assert(a0.insert(k, a[k]) =~= a);
        lemma_listing::<DeliveryKey, PendingView<H>>(
            placed::<DeliveryKey, PendingView<H>>(delivery_list(a0), k, a[k]),
        );
        if b.contains_key(k) {
            vstd::set_lib::lemma_set_subset_finite(a0.dom(), b0.dom());
            lemma_listing_exists::<DeliveryKey, PendingView<H>>(b0);
            lemma_placed::<DeliveryKey, PendingView<H>>(delivery_list(b0), k, b[k]);
            lemma_placed_backlog(delivery_list(b0), k, b[k], peer);
            assert(b0.insert(k, b[k]) =~= b);
            lemma_listing::<DeliveryKey, PendingView<H>>(
                placed::<DeliveryKey, PendingView<H>>(delivery_list(b0), k, b[k]),
            );
        } else {
            assert(b0 =~= b);
        }
    }
}

/// As long as nothing is published, what is on its way to a peer only becomes less: every step
/// that keeps each message as it is, or ends it, keeps to what the configuration allows.
pub proof fn law_backlog_only_shrinks<H>(v: OwnerView<H>, w: OwnerView<H>)
    requires
        v.deliveries.pending.dom().finite(),
        backlog_bounded(v),
        w.config == v.config,
        forall|k: DeliveryKeyView| #[trigger]
            w.deliveries.pending.contains_key(k) ==> {
                &&& v.deliveries.pending.contains_key(k)
                &&& w.deliveries.pending[k].signed == v.deliveries.pending[k].signed
                &&& w.deliveries.pending[k].envelope == v.deliveries.pending[k].envelope
            },
    ensures
        backlog_bounded(w),
{
    assert forall|peer: Seq<u8>|
        #[trigger] backlog_messages(delivery_list(w.deliveries.pending), peer)
            <= w.config.per_peer_messages && backlog_bytes(
            delivery_list(w.deliveries.pending),
            peer,
        ) <= w.config.per_peer_bytes by {
        lemma_backlog_subset(v.deliveries.pending, w.deliveries.pending, peer);
        assert(backlog_messages(delivery_list(v.deliveries.pending), peer)
            <= v.config.per_peer_messages);
    }
}

// From one endpoint to another

/// What one endpoint publishes, another that granted room for it takes for what it is and hands to
/// a handler: the envelope that comes out is the one that went in, and it describes the payload.
pub proof fn law_published_is_handed_over<H, G>(
    v: OwnerView<H>,
    w: OwnerView<G>,
    topic: Seq<char>,
    payload: Seq<u8>,
    mode: DeliveryMode,
    lifetime: nat,
    format: Seq<char>,
    clock: Option<u64>,
    session: Seq<u8>,
    sub: Seq<u8>,
    stream: u64,
    there: u64,
)
    requires
        after_numbering(v, topic, payload, mode, lifetime, format, clock).1 matches Ok(m)
            && signed_envelope_of(m.signed, own_id(v)) == Ok::<EnvelopeView, Error>(m.envelope)
            && m.envelope.created <= saturating_sum(there, w.config.trust.clock_skew_secs) && there
            < m.envelope.expires && frame_fits(w, own_id(v), session, sub, topic, m.signed, payload)
            && !w.records.contains_key(RecordKeyView { sub, id: m.envelope.id }),
        payload.len() <= u64::MAX,
        valid_peer(w, own_id(v), session, Some(there)) == Ok::<u64, Error>(there),
        w.config.trust.realm == v.config.trust.realm,
        claims_allow(w.peers[own_id(v)].reg.cert.claims, topic, true),
        claims_allow(w.cert.claims, topic, false),
        payload.len() <= w.config.max_payload,
        !payload_too_large(w.cert.claims.limits, payload.len()),
        !payload_too_large(w.peers[own_id(v)].reg.cert.claims.limits, payload.len()),
        lifetime / 1_000_000_000 <= w.config.delivery_window / 1_000_000_000,
        stream_refusal(w, w.peers[own_id(v)], topic, sub, stream) is None,
        w.subscriptions.contains_key(topic),
        w.subscriptions[topic].id == sub,
        w.subscriptions[topic].mode == mode,
        w.subscriptions[topic].confirmed.contains(own_id(v)),
    ensures
        ({
            let m = after_numbering(v, topic, payload, mode, lifetime, format, clock).1->Ok_0;
            let begun = after_begin(
                w,
                own_id(v),
                session,
                sub,
                stream,
                m.signed,
                payload.len(),
                Some(there),
            );
            &&& begun.1 matches Ok(ticket) && ticket.envelope == m.envelope && describes(
                ticket.envelope,
                payload,
            ) && arrival(
                begun.0,
                own_id(v),
                session,
                sub,
                ticket,
                payload,
                true,
                Some(there),
            ) == Ok::<Arrival, Error>(Arrival::Handle)
        }),
{
}

/// Whether a peer was granted enough room for a frame with a message.
pub open spec fn frame_fits<H>(
    w: OwnerView<H>,
    peer: Seq<u8>,
    session: Seq<u8>,
    sub: Seq<u8>,
    topic: Seq<char>,
    signed: Seq<u8>,
    payload: Seq<u8>,
) -> bool {
    &&& w.subscriptions[topic].grants.contains_key(peer)
    &&& payload.len() + data_bytes(session, sub, signed).len() + 12
        <= w.subscriptions[topic].grants[peer].bytes
}

/// A certificate can only restrict what an endpoint is configured to send and to take, and never
/// extends it.
pub proof fn law_limits_only_restrict<H>(
    v: OwnerView<H>,
    topic: Seq<char>,
    payload: Seq<u8>,
    mode: DeliveryMode,
    lifetime: nat,
    format: Seq<char>,
    clock: Option<u64>,
    peer: Seq<u8>,
    session: Seq<u8>,
    sub: Seq<u8>,
    stream: u64,
    signed: Seq<u8>,
    len: nat,
)
    ensures
        after_numbering(v, topic, payload, mode, lifetime, format, clock).1 is Ok ==> payload.len()
            <= v.config.max_payload && lifetime <= v.config.delivery_window,
        after_begin(v, peer, session, sub, stream, signed, len, clock).1 is Ok ==> len
            <= v.config.max_payload,
{
}

/// A peer that says goodbye gets nothing more that is published, but keeps what is on its way to
/// it.
pub proof fn law_goodbye_stops_fan_out<H>(
    v: OwnerView<H>,
    peer: Seq<u8>,
    writer: Result<H, Error>,
    now: u128,
    topic: Seq<char>,
    mode: DeliveryMode,
    t: u64,
)
    requires
        v.peers.dom().finite(),
    ensures
        ({
            let w = after_control(v, peer, ControlView::Goodbye, writer, now).0;
            let all = recipients(w, listing::<EndpointId, PeerView<H>>(w.peers), topic, mode, t);
            &&& w.deliveries == v.deliveries
            &&& forall|i: int| 0 <= i < all.len() ==> (#[trigger] all[i]).0 != peer
        }),
{
    let w = after_control(v, peer, ControlView::Goodbye, writer, now).0;
    let s = listing::<EndpointId, PeerView<H>>(w.peers);
    lemma_listing_exists::<EndpointId, PeerView<H>>(w.peers);
    assert forall|j: int| 0 <= j < s.len() && (#[trigger] s[j]).0 == peer implies s[j].1.reg.window_secs
        == 0 by {
        lemma_pairs_map_index::<EndpointId, PeerView<H>>(s, j);
    }
    lemma_closing_peer_left_out(w, s, peer, topic, mode, t);
}

proof fn lemma_closing_peer_left_out<H>(
    v: OwnerView<H>,
    s: Seq<(Seq<u8>, PeerView<H>)>,
    peer: Seq<u8>,
    topic: Seq<char>,
    mode: DeliveryMode,
    t: u64,
)
    requires
        forall|j: int|
            0 <= j < s.len() && (#[trigger] s[j]).0 == peer ==> s[j].1.reg.window_secs == 0,
    ensures
        forall|i: int|
            0 <= i < recipients(v, s, topic, mode, t).len() ==> (#[trigger] recipients(
                v,
                s,
                topic,
                mode,
                t,
            )[i]).0 != peer,
    decreases s.len(),
{
    if s.len() > 0 {
        assert forall|j: int|
            0 <= j < s.drop_last().len() && (#[trigger] s.drop_last()[j]).0 == peer implies s.drop_last()[j].1.reg.window_secs
            == 0 by {
            assert(s[j].0 == peer);
        }
        lemma_closing_peer_left_out(v, s.drop_last(), peer, topic, mode, t);
        let before = recipients(v, s.drop_last(), topic, mode, t);
        let all = recipients(v, s, topic, mode, t);
        assert forall|i: int| 0 <= i < all.len() implies (#[trigger] all[i]).0 != peer by {
            if i < before.len() {
                assert(all[i] == before[i]);
            } else {
                assert(s[s.len() - 1].0 == all[i].0);
            }
        }
    }
}

// What is remembered

proof fn lemma_without_peers_records<H>(v: OwnerView<H>, ids: Seq<Seq<u8>>, now: u128)
    ensures
        without_peers(v, ids, now).records == v.records,
    decreases ids.len(),
{
    if ids.len() > 0 {
        lemma_without_peers_records(v, ids.drop_last(), now);
    }
}

proof fn lemma_judged_record<H>(
    v: OwnerView<H>,
    n: nat,
    t: u64,
    error: Option<Error>,
    k: RecordKeyView,
)
    requires
        v.records.contains_key(k),
    ensures
        ({
            let w = judged_upto(v, n, t, error);
            &&& w.records.contains_key(k)
            &&& w.records[k].fingerprint == v.records[k].fingerprint
            &&& w.records[k].expires == v.records[k].expires
            &&& !(v.records[k].state is Processing) ==> w.records[k].state == v.records[k].state
        }),
    decreases n,
{
    if n > 0 {
        lemma_judged_record(v, (n - 1) as nat, t, error, k);
    }
}

/// What is remembered of a message is not forgotten while a copy of it could still come in, and
/// what is decided of it stays decided.
pub proof fn law_live_records_are_kept<H>(
    v: OwnerView<H>,
    clock: Option<u64>,
    now: u128,
    k: RecordKeyView,
)
    requires
        v.records.contains_key(k),
        clock_time(clock) < v.records[k].expires,
    ensures
        ({
            let w = tidied(v, clock, now);
            &&& w.records.contains_key(k)
            &&& w.records[k].fingerprint == v.records[k].fingerprint
            &&& w.records[k].expires == v.records[k].expires
            &&& !(v.records[k].state is Processing) ==> w.records[k].state == v.records[k].state
        }),
{
    let t = clock_time(clock);
    let v1 = after_clock(v, clock, now);
    let error = own_error(v1, clock);
    lemma_without_peers_records(
        v1,
        stale_peers(v1, listing::<EndpointId, PeerView<H>>(v1.peers), clock),
        now,
    );
    let v2 = without_stale(v1, clock, now);
    lemma_without_subscriptions_kept(
        v2,
        closed_topics(listing::<Topic, SubscriptionView<H>>(v2.subscriptions)),
    );
    let v3 = without_closed(v2);
    lemma_judged_record(v3, record_list(v3.records).len(), t, error, k);
}

// In what order messages go out

proof fn lemma_attempts_keep<H>(
    v: OwnerView<H>,
    n: nat,
    clock: Option<u64>,
    now: u128,
    jitters: Seq<u16>,
)
    requires
        v.deliveries.pending.dom().finite(),
        n <= delivery_list(v.deliveries.pending).len(),
    ensures
        ({
            let w = scheduled_upto(v, n, clock, now, jitters);
            &&& w.deliveries.pending.dom() == v.deliveries.pending.dom()
            &&& forall|k: DeliveryKeyView| #[trigger]
                v.deliveries.pending.contains_key(k) ==> same_message(
                    v.deliveries.pending[k],
                    w.deliveries.pending[k],
                )
        }),
    decreases n,
{
    if n > 0 {
        let m = (n - 1) as nat;
        lemma_attempts_keep(v, m, clock, now, jitters);
        let s = delivery_list(v.deliveries.pending);
        lemma_listing_exists::<DeliveryKey, PendingView<H>>(v.deliveries.pending);
        lemma_pairs_map_index::<DeliveryKey, PendingView<H>>(s, m as int);
        let u = scheduled_upto(v, m, clock, now, jitters);
        let w = scheduled_upto(v, n, clock, now, jitters);
        assert(v.deliveries.pending.contains_key(s[m as int].0));
        assert(u.deliveries.pending.dom().contains(s[m as int].0));
        assert(w.deliveries.pending.dom() =~= u.deliveries.pending.dom());
        assert forall|k: DeliveryKeyView| #[trigger]
            v.deliveries.pending.contains_key(k) implies same_message(
            v.deliveries.pending[k],
            w.deliveries.pending[k],
        ) by {
            assert(same_message(v.deliveries.pending[k], u.deliveries.pending[k]));
        }
    }
}

/// Whether two states of a delivery are of the same message to the same recipient, until the same
/// moment.
pub open spec fn same_message<H>(a: PendingView<H>, b: PendingView<H>) -> bool {
    &&& a.envelope == b.envelope
    &&& a.signed == b.signed
    &&& a.deadline == b.deadline
    &&& a.recipient == b.recipient
    &&& a.held == b.held
    &&& a.memory == b.memory
    &&& a.attempts <= b.attempts
}

/// However often it is tried, a message keeps its identity, its content, its deadline and what is
/// attached to it, and no attempt ends it.
pub proof fn law_attempts_keep_the_message<H>(
    v: OwnerView<H>,
    clock: Option<u64>,
    now: u128,
    jitters: Seq<u16>,
    k: DeliveryKeyView,
)
    requires
        v.deliveries.pending.dom().finite(),
        v.deliveries.pending.contains_key(k),
    ensures
        ({
            let w = scheduled(v, clock, now, jitters);
            &&& w.deliveries.pending.contains_key(k)
            &&& same_message(v.deliveries.pending[k], w.deliveries.pending[k])
        }),
{
    lemma_attempts_keep(v, delivery_list(v.deliveries.pending).len(), clock, now, jitters);
    assert(scheduled(v, clock, now, jitters).deliveries.pending.dom().contains(k));
}

/// Whether a delivery could be written now: it is due, and its subscription has granted room for
/// it and can take it.
pub open spec fn can_go<H>(
    v: OwnerView<H>,
    k: DeliveryKeyView,
    clock: Option<u64>,
    now: u128,
) -> bool {
    let b = v.peers[k.peer].outbound[k.id.topic];
    &&& within_credit(v, k)
    &&& b.mode == v.deliveries.pending[k].envelope.mode
    &&& b.room
    &&& attempt_due(v.deliveries.pending[k], clock, now)
}

/// Whether no delivery before the `p`-th could have been written in its place.
spec fn first_in_line<H>(
    v: OwnerView<H>,
    s: Seq<(DeliveryKeyView, PendingView<H>)>,
    p: int,
    clock: Option<u64>,
    now: u128,
) -> bool {
    forall|j: int|
        0 <= j < p && (#[trigger] s[j]).0.peer == s[p].0.peer && s[j].0.id.topic == s[p].0.id.topic
            ==> !can_go(v, s[j].0, clock, now)
}

/// What holds while deliveries are looked at one after the other, of the order in which they are
/// written.
spec fn orderly<H>(
    v: OwnerView<H>,
    u: OwnerView<H>,
    s: Seq<(DeliveryKeyView, PendingView<H>)>,
    n: int,
    clock: Option<u64>,
    now: u128,
) -> bool {
    &&& forall|peer: Seq<u8>, topic: Seq<char>|
        v.peers.contains_key(peer) && v.peers[peer].outbound.contains_key(topic) ==> {
            let b = #[trigger] u.peers[peer].outbound[topic];
            b.credit is None || (b.room == v.peers[peer].outbound[topic].room && b.mode
                == v.peers[peer].outbound[topic].mode)
        }
    &&& forall|j: int|
        0 <= j < n && can_go(v, (#[trigger] s[j]).0, clock, now) ==> credit_left(
            u,
            s[j].0.peer,
            s[j].0.id.topic,
        ) is None
    &&& forall|i: int|
        v.writes.len() <= i < u.writes.len() ==> exists|p: int|
            0 <= p < n && (#[trigger] s[p]).0 == (#[trigger] u.writes[i]) && first_in_line(
                v,
                s,
                p,
                clock,
                now,
            )
}

proof fn lemma_orderly_step<H>(
    v: OwnerView<H>,
    u: OwnerView<H>,
    s: Seq<(DeliveryKeyView, PendingView<H>)>,
    n: int,
    clock: Option<u64>,
    now: u128,
    jitter: u16,
)
    requires
        sending(v, u, s, n),
        orderly(v, u, s, n, clock, now),
        0 <= n < s.len(),
        v.deliveries.pending.contains_key(s[n].0),
    ensures
        orderly(v, scheduled_one(u, s[n].0, clock, now, jitter), s, n + 1, clock, now),
{
    let key = s[n].0;
    let topic = key.id.topic;
    let w = scheduled_one(u, key, clock, now, jitter);
    assert(u.deliveries.pending[key] == v.deliveries.pending[key]);
    if v.peers.contains_key(key.peer) && v.peers[key.peer].outbound.contains_key(topic) {
        assert(u.peers.dom().contains(key.peer));
        assert(u.peers[key.peer].outbound.dom().contains(topic));
        assert(u.peers[key.peer].outbound[topic].sub == v.peers[key.peer].outbound[topic].sub);
    }
    assert forall|peer: Seq<u8>, t: Seq<char>|
        v.peers.contains_key(peer) && v.peers[peer].outbound.contains_key(t) implies {
        let b = #[trigger] w.peers[peer].outbound[t];
        b.credit is None || (b.room == v.peers[peer].outbound[t].room && b.mode
            == v.peers[peer].outbound[t].mode)
    } by {
        assert(u.peers[peer].outbound[t].credit is None || u.peers[peer].outbound[t].room
            == v.peers[peer].outbound[t].room);
    }
    assert forall|j: int| 0 <= j < n + 1 && can_go(v, (#[trigger] s[j]).0, clock, now) implies credit_left(
        w,
        s[j].0.peer,
        s[j].0.id.topic,
    ) is None by {
        if j < n {
            assert(credit_left(u, s[j].0.peer, s[j].0.id.topic) is None);
        }
    }
    assert forall|i: int| v.writes.len() <= i < w.writes.len() implies exists|p: int|
        0 <= p < n + 1 && (#[trigger] s[p]).0 == (#[trigger] w.writes[i]) && first_in_line(
            v,
            s,
            p,
            clock,
            now,
        ) by {
        if i < u.writes.len() {
            assert(w.writes[i] == u.writes[i]);
            let p = choose|p: int|
                0 <= p < n && (#[trigger] s[p]).0 == u.writes[i] && first_in_line(
                    v,
                    s,
                    p,
                    clock,
                    now,
                );
            assert(s[p].0 == w.writes[i]);
        } else {
            assert(w.writes[i] == key);
            assert(credit_left(u, key.peer, topic) is Some);
            assert forall|j: int|
                0 <= j < n && (#[trigger] s[j]).0.peer == key.peer && s[j].0.id.topic
                    == topic implies !can_go(v, s[j].0, clock, now) by {
                if can_go(v, s[j].0, clock, now) {
                    assert(credit_left(u, s[j].0.peer, s[j].0.id.topic) is None);
                }
            }
            assert(first_in_line(v, s, n, clock, now));
            assert(s[n].0 == w.writes[i]);
        }
    }
}

proof fn lemma_orderly<H>(
    v: OwnerView<H>,
    s: Seq<(DeliveryKeyView, PendingView<H>)>,
    n: nat,
    clock: Option<u64>,
    now: u128,
    jitters: Seq<u16>,
)
    requires
        n <= s.len(),
        s == delivery_list(v.deliveries.pending),
        v.deliveries.pending.dom().finite(),
    ensures
        orderly(v, scheduled_upto(v, n, clock, now, jitters), s, n as int, clock, now),
    decreases n,
{
    if n > 0 {
        let m = (n - 1) as nat;
        lemma_orderly(v, s, m, clock, now, jitters);
        lemma_sending(v, s, m, clock, now, jitters);
        lemma_listing_exists::<DeliveryKey, PendingView<H>>(v.deliveries.pending);
        lemma_pairs_map_index::<DeliveryKey, PendingView<H>>(s, m as int);
        lemma_orderly_step(
            v,
            scheduled_upto(v, m, clock, now, jitters),
            s,
            m as int,
            clock,
            now,
            jitters[m as int],
        );
    }
}

/// Messages of one topic go out to a subscription in the order of their numbers: none is written
/// while one with a smaller number could have been.
pub proof fn law_messages_go_out_in_order<H>(
    v: OwnerView<H>,
    clock: Option<u64>,
    now: u128,
    jitters: Seq<u16>,
    i: int,
    earlier: DeliveryKeyView,
)
    requires
        v.deliveries.pending.dom().finite(),
        v.writes.len() <= i < scheduled(v, clock, now, jitters).writes.len(),
        ({
            let k = scheduled(v, clock, now, jitters).writes[i];
            &&& earlier.peer == k.peer
            &&& earlier.sub == k.sub
            &&& earlier.id == (MessageIdView { sequence: earlier.id.sequence, ..k.id })
            &&& earlier.id.sequence < k.id.sequence
        }),
        v.deliveries.pending.contains_key(earlier),
    ensures
        !can_go(v, earlier, clock, now),
{
    let s = delivery_list(v.deliveries.pending);
    let w = scheduled(v, clock, now, jitters);
    let k = w.writes[i];
    lemma_orderly(v, s, s.len(), clock, now, jitters);
    lemma_listing_exists::<DeliveryKey, PendingView<H>>(v.deliveries.pending);
    let p = choose|p: int|
        0 <= p < s.len() && (#[trigger] s[p]).0 == w.writes[i] && first_in_line(
            v,
            s,
            p,
            clock,
            now,
        );
    assert(pairs_map(s).contains_key(earlier));
    let j = choose|j: int| 0 <= j < s.len() && (#[trigger] s[j]).0 == earlier;
    assert(delivery_less(earlier, k));
    if p <= j {
        assert(p != j);
        assert(delivery_less(s[p].0, s[j].0));
    }
    assert(s[j].0.peer == s[p].0.peer);
}

// Who gets a message

proof fn lemma_recipients_listed<H>(
    v: OwnerView<H>,
    s: Seq<(Seq<u8>, PeerView<H>)>,
    topic: Seq<char>,
    mode: DeliveryMode,
    t: u64,
)
    requires
        increasing::<EndpointId, PeerView<H>>(s),
    ensures
        ({
            let all = recipients(v, s, topic, mode, t);
            &&& forall|i: int|
                0 <= i < all.len() ==> exists|j: int|
                    0 <= j < s.len() && (#[trigger] s[j]).0 == (#[trigger] all[i]).0
            &&& forall|i: int, j: int|
                0 <= i < j < all.len() ==> (#[trigger] all[i]).0 != (#[trigger] all[j]).0
        }),
    decreases s.len(),
{
    if s.len() > 0 {
        let rest = s.drop_last();
        assert(increasing::<EndpointId, PeerView<H>>(rest)) by {
            assert forall|i: int, j: int| 0 <= i < j < rest.len() implies <EndpointId as Key>::less(
                (#[trigger] rest[i]).0,
                (#[trigger] rest[j]).0,
            ) by {
                assert(rest[i] == s[i] && rest[j] == s[j]);
            }
        }
        lemma_recipients_listed(v, rest, topic, mode, t);
        let before = recipients(v, rest, topic, mode, t);
        let all = recipients(v, s, topic, mode, t);
        assert forall|i: int| 0 <= i < all.len() implies exists|j: int|
            0 <= j < s.len() && (#[trigger] s[j]).0 == (#[trigger] all[i]).0 by {
            if i < before.len() {
                assert(all[i] == before[i]);
                let j = choose|j: int|
                    0 <= j < rest.len() && (#[trigger] rest[j]).0 == before[i].0;
                assert(s[j].0 == all[i].0);
            } else {
                assert(s[s.len() - 1].0 == all[i].0);
            }
        }
        assert forall|i: int, j: int| 0 <= i < j < all.len() implies (#[trigger] all[i]).0 != (
        #[trigger] all[j]).0 by {
            assert(all[i] == before[i]);
            if j < before.len() {
                assert(all[j] == before[j]);
            } else {
                let l = choose|l: int| 0 <= l < rest.len() && (#[trigger] rest[l]).0 == before[i].0;
                assert(s[l].0 == all[i].0);
                assert(<EndpointId as Key>::less(s[l].0, s[s.len() - 1].0));
                lemma_bytes_less_irreflexive(s[l].0);
            }
        }
    }
}

/// Every peer gets a message once at most.
pub proof fn law_each_peer_gets_it_once<H>(
    v: OwnerView<H>,
    topic: Seq<char>,
    mode: DeliveryMode,
    t: u64,
)
    requires
        v.peers.dom().finite(),
    ensures
        ({
            let all = recipients(v, listing::<EndpointId, PeerView<H>>(v.peers), topic, mode, t);
            forall|i: int, j: int|
                0 <= i < j < all.len() ==> (#[trigger] all[i]).0 != (#[trigger] all[j]).0
        }),
{
    lemma_listing_exists::<EndpointId, PeerView<H>>(v.peers);
    lemma_recipients_listed(v, listing::<EndpointId, PeerView<H>>(v.peers), topic, mode, t);
}

/// Whether a peer on a list gets a message for this subscription.
spec fn gets_it<H>(
    v: OwnerView<H>,
    s: Seq<(Seq<u8>, PeerView<H>)>,
    topic: Seq<char>,
    mode: DeliveryMode,
    t: u64,
    to: (Seq<u8>, Seq<u8>),
    j: int,
) -> bool {
    &&& 0 <= j < s.len()
    &&& eligible(v, s[j].0, s[j].1, topic, mode, t)
    &&& to == (s[j].0, s[j].1.outbound[topic].sub)
}

/// Whether some peer on a list gets a message for this subscription.
spec fn listed_to_get<H>(
    v: OwnerView<H>,
    s: Seq<(Seq<u8>, PeerView<H>)>,
    topic: Seq<char>,
    mode: DeliveryMode,
    t: u64,
    to: (Seq<u8>, Seq<u8>),
) -> bool {
    exists|j: int| gets_it(v, s, topic, mode, t, to, j)
}

proof fn lemma_recipients_exact<H>(
    v: OwnerView<H>,
    s: Seq<(Seq<u8>, PeerView<H>)>,
    topic: Seq<char>,
    mode: DeliveryMode,
    t: u64,
)
    requires
        increasing::<EndpointId, PeerView<H>>(s),
    ensures
        ({
            let all = recipients(v, s, topic, mode, t);
            &&& forall|i: int|
                0 <= i < all.len() ==> listed_to_get(v, s, topic, mode, t, #[trigger] all[i])
            &&& forall|to: (Seq<u8>, Seq<u8>)| #[trigger]
                listed_to_get(v, s, topic, mode, t, to) ==> all.contains(to)
            &&& forall|i: int, j: int|
                0 <= i < j < all.len() ==> bytes_less((#[trigger] all[i]).0, (#[trigger] all[j]).0)
        }),
    decreases s.len(),
{
    if s.len() > 0 {
        let rest = s.drop_last();
        assert(increasing::<EndpointId, PeerView<H>>(rest)) by {
            assert forall|i: int, j: int| 0 <= i < j < rest.len() implies <EndpointId as Key>::less(
                (#[trigger] rest[i]).0,
                (#[trigger] rest[j]).0,
            ) by {
                assert(rest[i] == s[i] && rest[j] == s[j]);
            }
        }
        lemma_recipients_exact(v, rest, topic, mode, t);
        let before = recipients(v, rest, topic, mode, t);
        let all = recipients(v, s, topic, mode, t);
        assert forall|i: int| 0 <= i < all.len() implies listed_to_get(
            v,
            s,
            topic,
            mode,
            t,
            #[trigger] all[i],
        ) by {
            if i < before.len() {
                assert(all[i] == before[i]);
                assert(listed_to_get(v, rest, topic, mode, t, before[i]));
                let j = choose|j: int| gets_it(v, rest, topic, mode, t, before[i], j);
                assert(gets_it(v, s, topic, mode, t, all[i], j));
            } else {
                assert(gets_it(v, s, topic, mode, t, all[i], s.len() - 1));
            }
        }
        assert forall|to: (Seq<u8>, Seq<u8>)| #[trigger]
            listed_to_get(v, s, topic, mode, t, to) implies all.contains(to) by {
            let j = choose|j: int| gets_it(v, s, topic, mode, t, to, j);
            if j < rest.len() {
                assert(gets_it(v, rest, topic, mode, t, to, j));
                assert(listed_to_get(v, rest, topic, mode, t, to));
                let i = choose|i: int| 0 <= i < before.len() && before[i] == to;
                assert(all[i] == to);
            } else {
                assert(all[all.len() - 1] == to);
            }
        }
        assert forall|i: int, j: int| 0 <= i < j < all.len() implies bytes_less(
            (#[trigger] all[i]).0,
            (#[trigger] all[j]).0,
        ) by {
            assert(all[i] == before[i]);
            if j < before.len() {
                assert(all[j] == before[j]);
            } else {
                assert(listed_to_get(v, rest, topic, mode, t, before[i]));
                let l = choose|l: int| gets_it(v, rest, topic, mode, t, before[i], l);
                assert(rest[l] == s[l]);
                assert(<EndpointId as Key>::less(s[l].0, s[s.len() - 1].0));
            }
        }
    }
}

/// A message that is published goes to someone: to exactly the peers that are subscribed to its
/// topic in this way and may act, each once and in order.
pub proof fn law_published_to_the_eligible<H>(
    v: OwnerView<H>,
    topic: Seq<char>,
    payload: Seq<u8>,
    mode: DeliveryMode,
    lifetime: nat,
    format: Seq<char>,
    t: u64,
)
    requires
        v.peers.dom().finite(),
    ensures
        after_numbering(v, topic, payload, mode, lifetime, format, Some(t)).1 matches Ok(m) ==> {
            &&& m.recipients.len() > 0
            &&& forall|i: int, j: int|
                0 <= i < j < m.recipients.len() ==> bytes_less(
                    (#[trigger] m.recipients[i]).0,
                    (#[trigger] m.recipients[j]).0,
                )
            &&& forall|to: (Seq<u8>, Seq<u8>)| #[trigger]
                m.recipients.contains(to) <==> v.peers.contains_key(to.0) && eligible(
                    v,
                    to.0,
                    v.peers[to.0],
                    topic,
                    mode,
                    t,
                ) && to.1 == v.peers[to.0].outbound[topic].sub
        },
{
    let s = listing::<EndpointId, PeerView<H>>(v.peers);
    lemma_listing_exists::<EndpointId, PeerView<H>>(v.peers);
    lemma_recipients_exact(v, s, topic, mode, t);
    if let Ok(m) = after_numbering(v, topic, payload, mode, lifetime, format, Some(t)).1 {
        assert(m.recipients == recipients(v, s, topic, mode, t));
        assert forall|to: (Seq<u8>, Seq<u8>)| #[trigger]
            m.recipients.contains(to) <==> v.peers.contains_key(to.0) && eligible(
                v,
                to.0,
                v.peers[to.0],
                topic,
                mode,
                t,
            ) && to.1 == v.peers[to.0].outbound[topic].sub by {
            if m.recipients.contains(to) {
                let i = choose|i: int| 0 <= i < m.recipients.len() && m.recipients[i] == to;
                assert(listed_to_get(v, s, topic, mode, t, m.recipients[i]));
                let j = choose|j: int| gets_it(v, s, topic, mode, t, m.recipients[i], j);
                lemma_pairs_map_index::<EndpointId, PeerView<H>>(s, j);
            }
            if v.peers.contains_key(to.0) && eligible(v, to.0, v.peers[to.0], topic, mode, t) && to.1
                == v.peers[to.0].outbound[topic].sub {
                assert(pairs_map(s).contains_key(to.0));
                let j = choose|j: int| 0 <= j < s.len() && (#[trigger] s[j]).0 == to.0;
                lemma_pairs_map_index::<EndpointId, PeerView<H>>(s, j);
                assert(gets_it(v, s, topic, mode, t, to, j));
                assert(listed_to_get(v, s, topic, mode, t, to));
            }
        }
    }
}

proof fn lemma_placing_elsewhere<H>(
    v: OwnerView<H>,
    m: PublicationView,
    to: (Seq<u8>, Seq<u8>),
    held: (H, H),
    now: u128,
    peer: Seq<u8>,
)
    requires
        v.deliveries.pending.dom().finite(),
        !v.deliveries.pending.contains_key(
            DeliveryKeyView { peer: to.0, sub: to.1, id: m.envelope.id },
        ),
        to.0 != peer,
    ensures
        placing(placed_one(v, m, to, held, now), m, peer) == placing(v, m, peer),
        placed_one(v, m, to, held, now).deliveries.pending.dom().finite(),
{
    let w = placed_one(v, m, to, held, now);
    let s = delivery_list(v.deliveries.pending);
    let k = DeliveryKeyView { peer: to.0, sub: to.1, id: m.envelope.id };
    if w.deliveries.pending != v.deliveries.pending {
        let p = w.deliveries.pending[k];
        lemma_listing_exists::<DeliveryKey, PendingView<H>>(v.deliveries.pending);
        lemma_placed::<DeliveryKey, PendingView<H>>(s, k, p);
        let t = placed::<DeliveryKey, PendingView<H>>(s, k, p);
        assert(v.deliveries.pending.insert(k, p) == w.deliveries.pending);
        lemma_listing::<DeliveryKey, PendingView<H>>(t);
        assert(delivery_list(w.deliveries.pending) == t);
        lemma_placed_backlog(s, k, p, peer);
    }
}

proof fn lemma_fan_out<H>(
    v: OwnerView<H>,
    m: PublicationView,
    held: Seq<(H, H)>,
    n: nat,
    now: u128,
)
    requires
        n <= m.recipients.len(),
        v.deliveries.pending.dom().finite(),
        forall|i: int|
            0 <= i < m.recipients.len() ==> !v.deliveries.pending.contains_key(
                #[trigger] delivery_to(m, i),
            ),
        forall|i: int, j: int|
            0 <= i < j < m.recipients.len() ==> (#[trigger] m.recipients[i]).0 != (
            #[trigger] m.recipients[j]).0,
    ensures
        placed_upto(v, m, held, n, now).deliveries.pending.dom().finite(),
        forall|i: int|
            n <= i < m.recipients.len() ==> !placed_upto(
                v,
                m,
                held,
                n,
                now,
            ).deliveries.pending.contains_key(#[trigger] delivery_to(m, i)),
        forall|i: int|
            n <= i < m.recipients.len() ==> placing(
                placed_upto(v, m, held, n, now),
                m,
                (#[trigger] m.recipients[i]).0,
            ) == placing(v, m, m.recipients[i].0),
    decreases n,
{
    if n > 0 {
        let l = (n - 1) as nat;
        let u = placed_upto(v, m, held, l, now);
        lemma_fan_out(v, m, held, l, now);
        assert(!u.deliveries.pending.contains_key(delivery_to(m, l as int)));
        let w = placed_upto(v, m, held, n, now);
        assert(u.deliveries.pending.dom().finite());
        assert forall|i: int| n <= i < m.recipients.len() implies !w.deliveries.pending.contains_key(
            #[trigger] delivery_to(m, i),
        ) by {
            assert(!u.deliveries.pending.contains_key(delivery_to(m, i)));
            assert(m.recipients[l as int].0 != m.recipients[i].0);
        }
        assert forall|i: int| n <= i < m.recipients.len() implies placing(
            w,
            m,
            (#[trigger] m.recipients[i]).0,
        ) == placing(v, m, m.recipients[i].0) by {
            assert(m.recipients[l as int].0 != m.recipients[i].0);
            lemma_placing_elsewhere(
                u,
                m,
                m.recipients[l as int],
                held[l as int],
                now,
                m.recipients[i].0,
            );
        }
    }
}

/// What becomes of a message at one peer does not depend on the others that it is published to: a
/// peer that can take no more is refused it, and the others get it all the same.
pub proof fn law_fan_out_is_independent<H>(
    v: OwnerView<H>,
    m: PublicationView,
    held: Seq<(H, H)>,
    now: u128,
    i: int,
)
    requires
        0 <= i < m.recipients.len(),
        v.deliveries.pending.dom().finite(),
        forall|i: int|
            0 <= i < m.recipients.len() ==> !v.deliveries.pending.contains_key(
                #[trigger] delivery_to(m, i),
            ),
        forall|i: int, j: int|
            0 <= i < j < m.recipients.len() ==> (#[trigger] m.recipients[i]).0 != (
            #[trigger] m.recipients[j]).0,
    ensures
        first_outcomes(v, m, held, now)[i] == (
            m.recipients[i].0,
            placing(v, m, m.recipients[i].0),
        ),
{
    lemma_fan_out(v, m, held, i as nat, now);
}

// What is left after everything is seen to

/// Whether two states are of the same endpoint under the same certificate, at the same reading of
/// the clock.
spec fn same_endpoint<H>(v: OwnerView<H>, w: OwnerView<H>) -> bool {
    &&& w.config == v.config
    &&& w.secret == v.secret
    &&& w.cert == v.cert
    &&& w.clock_failed == v.clock_failed
}

proof fn lemma_without_peers_same<H>(v: OwnerView<H>, ids: Seq<Seq<u8>>, now: u128)
    ensures
        same_endpoint(v, without_peers(v, ids, now)),
        without_peers(v, ids, now).deliveries.pending.dom().subset_of(v.deliveries.pending.dom()),
    decreases ids.len(),
{
    if ids.len() > 0 {
        lemma_without_peers_same(v, ids.drop_last(), now);
    }
}

proof fn lemma_without_subscriptions_same<H>(v: OwnerView<H>, topics: Seq<Seq<char>>)
    ensures
        same_endpoint(v, without_subscriptions(v, topics)),
    decreases topics.len(),
{
    if topics.len() > 0 {
        lemma_without_subscriptions_same(v, topics.drop_last());
    }
}

proof fn lemma_judged_settles<H>(v: OwnerView<H>, n: nat, t: u64, error: Option<Error>)
    requires
        v.records.dom().finite(),
        n <= record_list(v.records).len(),
    ensures
        ({
            let w = judged_upto(v, n, t, error);
            &&& same_endpoint(v, w)
            &&& w.records.dom() == v.records.dom()
            &&& forall|i: int|
                0 <= i < n ==> verdict(w.records[(#[trigger] record_list(v.records)[i]).0], t, error)
                    is None
        }),
    decreases n,
{
    if n > 0 {
        let l = (n - 1) as nat;
        let s = record_list(v.records);
        lemma_judged_settles(v, l, t, error);
        lemma_listing_exists::<RecordKey, RecordView<H>>(v.records);
        lemma_pairs_map_index::<RecordKey, RecordView<H>>(s, l as int);
        let u = judged_upto(v, l, t, error);
        let key = s[l as int].0;
        let w = judged_one(u, key, t, error);
        assert(v.records.dom().contains(key));
        assert(u.records.dom().contains(key));
        assert(w.records.dom() =~= u.records.dom());
        assert forall|i: int| 0 <= i < n implies verdict(w.records[(#[trigger] s[i]).0], t, error)
            is None by {
            if s[i].0 != key {
                assert(w.records[s[i].0] == u.records[s[i].0]);
            }
        }
    }
}

/// Whether a delivery can go on at the time `t`: it has not expired, and this endpoint and the
/// recipient may still exchange messages on its topic.
pub open spec fn can_go_on<H>(
    v: OwnerView<H>,
    k: DeliveryKeyView,
    p: PendingView<H>,
    t: u64,
    now: u128,
) -> bool {
    &&& now < p.deadline && t < p.envelope.expires
    &&& claims_allow(v.cert.claims, k.id.topic, true)
    &&& claims_allow(p.recipient.claims, k.id.topic, false)
    &&& trust_check(v.config.trust, p.recipient.claims, k.peer, t) is Ok
}

/// Whether everything is in order at the reading `clock` of the clock: the peers may act, the
/// deliveries can go on, and of every message that is remembered a copy could still come in, and
/// every verdict on it was told. Where this endpoint itself may not act, it has no peers and no
/// deliveries, and no handler has a message.
pub open spec fn in_order<H>(v: OwnerView<H>, clock: Option<u64>, now: u128) -> bool {
    let t = clock_time(clock);
    &&& forall|k: DeliveryKeyView| #[trigger]
        v.deliveries.pending.contains_key(k) ==> valid_time(v, clock) is Ok && can_go_on(
            v,
            k,
            v.deliveries.pending[k],
            t,
            now,
        )
    &&& forall|k: RecordKeyView| #[trigger]
        v.records.contains_key(k) ==> t < v.records[k].expires && verdict(
            v.records[k],
            t,
            own_error(v, clock),
        ) is None
}

proof fn lemma_tidied_in_order<H>(v: OwnerView<H>, clock: Option<u64>, now: u128)
    requires
        v.records.dom().finite(),
        v.peers.dom().finite(),
    ensures
        ({
            let w = tidied(v, clock, now);
            &&& same_endpoint(after_clock(v, clock, now), w)
            &&& in_order(w, clock, now)
            &&& w.deliveries.pending.dom().subset_of(v.deliveries.pending.dom())
            &&& w.peers.dom().subset_of(v.peers.dom())
        }),
{
    let t = clock_time(clock);
    let v1 = after_clock(v, clock, now);
    let error = own_error(v1, clock);
    let stale = stale_peers(v1, listing::<EndpointId, PeerView<H>>(v1.peers), clock);
    lemma_without_peers_same(v1, stale, now);
    lemma_without_peers_records(v1, stale, now);
    lemma_without_peers_gone(v1, stale, now);
    let v2 = without_stale(v1, clock, now);
    let topics = closed_topics(listing::<Topic, SubscriptionView<H>>(v2.subscriptions));
    lemma_without_subscriptions_same(v2, topics);
    lemma_without_subscriptions_kept(v2, topics);
    let v3 = without_closed(v2);
    let s = record_list(v3.records);
    lemma_judged_kept(v3, s.len(), t, error);
    lemma_judged_settles(v3, s.len(), t, error);
    let v4 = judged(v3, t, error);
    let v5 = forgotten(v4, t);
    let v6 = after_failures(v5, error, t, now);
    let w = credits_returned(v6);
    assert(w == tidied(v, clock, now));
    assert(w.peers.dom() =~= v6.peers.dom());
    assert forall|id: Seq<u8>| #[trigger] w.peers.dom().contains(id) implies v.peers.dom().contains(
        id,
    ) by {
        assert(v2.peers.dom().contains(id));
        assert(v2.peers.contains_key(id));
    }
    assert(own_error(w, clock) == error);
    assert forall|k: DeliveryKeyView| #[trigger] w.deliveries.pending.contains_key(k) implies {
        &&& valid_time(w, clock) is Ok
        &&& can_go_on(w, k, w.deliveries.pending[k], t, now)
        &&& v.deliveries.pending.contains_key(k)
    } by {
        assert(v5.deliveries.pending.contains_key(k));
        assert(v1.deliveries.pending.dom().contains(k));
        assert(delivery_error(v5, k, v5.deliveries.pending[k], error, t, now) is None);
    }
    assert forall|k: RecordKeyView| #[trigger] w.records.contains_key(k) implies t
        < w.records[k].expires && verdict(w.records[k], t, error) is None by {
        assert(v4.records.contains_key(k));
        assert(v3.records.dom().contains(k));
        lemma_listing_exists::<RecordKey, RecordView<H>>(v3.records);
        assert(pairs_map(s).contains_key(k));
        let i = choose|i: int| 0 <= i < s.len() && (#[trigger] s[i]).0 == k;
        assert(verdict(v4.records[s[i].0], t, error) is None);
    }
}

proof fn lemma_granted_same<H>(
    v: OwnerView<H>,
    q: Seq<(Seq<char>, Seq<u8>)>,
    funds: Seq<Option<H>>,
    n: nat,
)
    ensures
        ({
            let w = granted_upto(v, q, funds, n);
            &&& same_endpoint(v, w)
            &&& w.deliveries == v.deliveries
            &&& w.records == v.records
            &&& w.peers.dom() == v.peers.dom()
        }),
    decreases n,
{
    if n > 0 {
        let l = (n - 1) as nat;
        lemma_granted_same(v, q, funds, l);
        let u = granted_upto(v, q, funds, l);
        assert(granted_upto(v, q, funds, n).peers.dom() =~= u.peers.dom());
    }
}

proof fn lemma_scheduled_same<H>(
    v: OwnerView<H>,
    n: nat,
    clock: Option<u64>,
    now: u128,
    jitters: Seq<u16>,
)
    ensures
        ({
            let w = scheduled_upto(v, n, clock, now, jitters);
            &&& same_endpoint(v, w)
            &&& w.records == v.records
            &&& w.peers.dom() == v.peers.dom()
        }),
    decreases n,
{
    if n > 0 {
        let l = (n - 1) as nat;
        lemma_scheduled_same(v, l, clock, now, jitters);
        let u = scheduled_upto(v, l, clock, now, jitters);
        assert(scheduled_upto(v, n, clock, now, jitters).peers.dom() =~= u.peers.dom());
    }
}

/// After everything is seen to, everything that is left is in order: every peer could act and had
/// its connection, every delivery can go on, every message that is remembered could still come in
/// again, and every verdict of a handler was told. Nothing is there that was not there before.
pub proof fn law_what_is_left_is_in_order<H, F: Fn(&Topic, CreditPermits) -> H>(
    v: OwnerView<H>,
    w: OwnerView<H>,
    clock: Option<u64>,
    now: u128,
    f: FundsView,
    g: FundsView,
    attach: F,
)
    requires
        v.peers.dom().finite(),
        v.records.dom().finite(),
        v.deliveries.pending.dom().finite(),
        maintained(v, w, clock, now, f, g, attach),
    ensures
        in_order(w, clock, now),
        forall|id: Seq<u8>| #[trigger]
            w.peers.contains_key(id) ==> v.peers.contains_key(id) && !is_stale(
                after_clock(v, clock, now),
                id,
                v.peers[id],
                clock,
            ),
        forall|k: DeliveryKeyView| #[trigger]
            w.deliveries.pending.contains_key(k) ==> v.deliveries.pending.contains_key(k),
{
    let x = tidied(v, clock, now);
    lemma_tidied_in_order(v, clock, now);
    vstd::set_lib::lemma_set_subset_finite(v.deliveries.pending.dom(), x.deliveries.pending.dom());
    let (u, funds) = choose|u: OwnerView<H>, funds: Seq<Option<H>>| #[trigger]
        considered_all(x, u, clock, f, g, attach, funds) && scheduled_somehow(u, w, clock, now);
    lemma_granted_same(after_queue(x, clock), queue(x, clock), funds, queue(x, clock).len());
    let jitters = choose|jitters: Seq<u16>|
        jitters.len() == delivery_list(u.deliveries.pending).len() && w == #[trigger] scheduled(
            u,
            clock,
            now,
            jitters,
        );
    let n = delivery_list(u.deliveries.pending).len();
    lemma_scheduled_same(u, n, clock, now, jitters);
    lemma_attempts_keep(u, n, clock, now, jitters);
    assert(same_endpoint(x, w));
    assert forall|id: Seq<u8>| #[trigger] w.peers.contains_key(id) implies v.peers.contains_key(id)
        && !is_stale(after_clock(v, clock, now), id, v.peers[id], clock) by {
        assert(w.peers.dom().contains(id));
        assert(x.peers.dom().contains(id));
        if is_stale(after_clock(v, clock, now), id, v.peers[id], clock) {
            law_stale_peer_is_let_go(v, clock, now, id);
        }
    }
    assert forall|k: DeliveryKeyView| #[trigger] w.deliveries.pending.contains_key(k) implies {
        &&& valid_time(w, clock) is Ok
        &&& can_go_on(w, k, w.deliveries.pending[k], clock_time(clock), now)
        &&& v.deliveries.pending.contains_key(k)
    } by {
        assert(w.deliveries.pending.dom().contains(k));
        assert(u.deliveries.pending.contains_key(k));
        assert(x.deliveries.pending.contains_key(k));
        assert(same_message(u.deliveries.pending[k], w.deliveries.pending[k]));
    }
    assert forall|k: RecordKeyView| #[trigger] w.records.contains_key(k) implies clock_time(clock)
        < w.records[k].expires && verdict(
        w.records[k],
        clock_time(clock),
        own_error(w, clock),
    ) is None by {
        assert(x.records.contains_key(k));
    }
}

/// Whether `e` comes from `d` by ending deliveries: those that were tried before they ended are
/// remembered, what was remembered before stays, and how every delivery ended that did waits to be
/// told.
spec fn ended_between<H>(d: DeliveriesView<H>, e: DeliveriesView<H>, grace: u64) -> bool {
    &&& forall|k: DeliveryKeyView| #[trigger]
        e.closed.contains_key(k) ==> {
            ||| d.closed.contains_key(k) && e.closed[k] == d.closed[k]
            ||| ended_in(d, e, k) && e.closed[k] == closing(d.pending[k], grace)
        }
    &&& forall|k: DeliveryKeyView| #[trigger]
        d.closed.contains_key(k) && !d.pending.contains_key(k) ==> e.closed.contains_key(k)
            && e.closed[k] == d.closed[k]
    &&& forall|k: DeliveryKeyView| #[trigger]
        ended_in(d, e, k) ==> e.closed.contains_key(k) && e.closed[k] == closing(
            d.pending[k],
            grace,
        )
    &&& forall|k: DeliveryKeyView| #[trigger]
        e.pending.contains_key(k) ==> d.pending.contains_key(k) && same_message(
            d.pending[k],
            e.pending[k],
        ) && e.pending[k].attempts == d.pending[k].attempts
    &&& forall|k: DeliveryKeyView| #[trigger]
        d.pending.contains_key(k) && !e.pending.contains_key(k) ==> failed_in(e, k)
    &&& forall|k: DeliveryKeyView| #[trigger]
        failed_in(d, k) && !d.pending.contains_key(k) ==> failed_in(e, k)
}

/// Whether a delivery that had been tried ended between two states.
pub open spec fn ended_in<H>(
    d: DeliveriesView<H>,
    e: DeliveriesView<H>,
    k: DeliveryKeyView,
) -> bool {
    d.pending.contains_key(k) && !e.pending.contains_key(k) && d.pending[k].attempts > 0
}

/// Whether a delivery failed, which waits to be told.
pub open spec fn failed_in<H>(d: DeliveriesView<H>, k: DeliveryKeyView) -> bool {
    d.ended.contains_key(k) && d.ended[k].outcome is Failed
}

proof fn lemma_without_peers_ended<H>(v: OwnerView<H>, ids: Seq<Seq<u8>>, now: u128)
    ensures
        ended_between(
            v.deliveries,
            without_peers(v, ids, now).deliveries,
            grace_of(v.config),
        ),
    decreases ids.len(),
{
    if ids.len() > 0 {
        let before = ids.drop_last();
        lemma_without_peers_ended(v, before, now);
        lemma_without_peers_same(v, before, now);
        let d = v.deliveries;
        let e = without_peers(v, before, now).deliveries;
        let f = without_peers(v, ids, now).deliveries;
        assert(ended_between(e, f, grace_of(v.config)));
        lemma_ended_twice(d, e, f, grace_of(v.config));
    }
}

proof fn lemma_ended_twice<H>(
    d: DeliveriesView<H>,
    e: DeliveriesView<H>,
    f: DeliveriesView<H>,
    grace: u64,
)
    requires
        ended_between(d, e, grace),
        ended_between(e, f, grace),
    ensures
        ended_between(d, f, grace),
{
    assert forall|k: DeliveryKeyView| #[trigger] f.closed.contains_key(k) implies {
        ||| d.closed.contains_key(k) && f.closed[k] == d.closed[k]
        ||| ended_in(d, f, k) && f.closed[k] == closing(d.pending[k], grace)
    } by {
        if e.closed.contains_key(k) && f.closed[k] == e.closed[k] {
            if !(d.closed.contains_key(k) && e.closed[k] == d.closed[k]) {
                assert(ended_in(d, e, k));
                assert(!f.pending.contains_key(k));
            }
        } else {
            assert(ended_in(e, f, k));
            assert(e.pending.contains_key(k));
        }
    }
    assert forall|k: DeliveryKeyView| #[trigger] ended_in(d, f, k) implies f.closed.contains_key(k)
        && f.closed[k] == closing(d.pending[k], grace) by {
        if e.pending.contains_key(k) {
            assert(ended_in(e, f, k));
        } else {
            assert(ended_in(d, e, k));
            assert(e.closed.contains_key(k) && !e.pending.contains_key(k));
        }
    }
    assert forall|k: DeliveryKeyView| #[trigger]
        d.closed.contains_key(k) && !d.pending.contains_key(k) implies f.closed.contains_key(k)
        && f.closed[k] == d.closed[k] by {
        assert(e.closed.contains_key(k) && !e.pending.contains_key(k));
    }
    assert forall|k: DeliveryKeyView| #[trigger]
        d.pending.contains_key(k) && !f.pending.contains_key(k) implies failed_in(f, k) by {
        if !e.pending.contains_key(k) {
            assert(failed_in(e, k));
        }
    }
    assert forall|k: DeliveryKeyView| #[trigger]
        failed_in(d, k) && !d.pending.contains_key(k) implies failed_in(f, k) by {
        assert(failed_in(e, k));
    }
    assert forall|k: DeliveryKeyView| #[trigger] f.pending.contains_key(k) implies
        d.pending.contains_key(k) && same_message(d.pending[k], f.pending[k])
        && f.pending[k].attempts == d.pending[k].attempts by {
        assert(e.pending.contains_key(k));
    }
}

proof fn lemma_scheduled_remembers<H>(
    v: OwnerView<H>,
    n: nat,
    clock: Option<u64>,
    now: u128,
    jitters: Seq<u16>,
)
    ensures
        scheduled_upto(v, n, clock, now, jitters).deliveries.closed == v.deliveries.closed,
        scheduled_upto(v, n, clock, now, jitters).deliveries.ended == v.deliveries.ended,
    decreases n,
{
    if n > 0 {
        lemma_scheduled_remembers(v, (n - 1) as nat, clock, now, jitters);
    }
}

/// After everything is seen to, what is remembered of deliveries that are over is just what was
/// remembered before and has time left, and those that ended meanwhile after they had been tried,
/// which are remembered at least while their grace lasts. Every delivery that ended meanwhile failed,
/// and that waits to be told.
pub proof fn law_what_is_remembered_of_deliveries<H, F: Fn(&Topic, CreditPermits) -> H>(
    v: OwnerView<H>,
    w: OwnerView<H>,
    clock: Option<u64>,
    now: u128,
    f: FundsView,
    g: FundsView,
    attach: F,
)
    requires
        v.peers.dom().finite(),
        v.records.dom().finite(),
        v.deliveries.pending.dom().finite(),
        maintained(v, w, clock, now, f, g, attach),
    ensures
        ({
            let t = clock_time(clock);
            let d = v.deliveries;
            let e = w.deliveries;
            let grace = grace_of(v.config);
            &&& forall|k: DeliveryKeyView| #[trigger]
                e.closed.contains_key(k) ==> {
                    ||| d.closed.contains_key(k) && e.closed[k] == d.closed[k] && t
                        < d.closed[k].expires
                    ||| ended_in(d, e, k) && e.closed[k] == closing(d.pending[k], grace)
                }
            &&& forall|k: DeliveryKeyView|
                d.closed.contains_key(k) && !d.pending.contains_key(k) ==> (
                #[trigger] e.closed.contains_key(k) <==> t < d.closed[k].expires)
            &&& forall|k: DeliveryKeyView| #[trigger]
                ended_in(d, e, k) && t < closing(d.pending[k], grace).expires
                    ==> e.closed.contains_key(k)
            &&& forall|k: DeliveryKeyView| #[trigger]
                d.pending.contains_key(k) && !e.pending.contains_key(k) ==> failed_in(e, k)
        }),
{
    let t = clock_time(clock);
    let v1 = after_clock(v, clock, now);
    let error = own_error(v1, clock);
    let stale = stale_peers(v1, listing::<EndpointId, PeerView<H>>(v1.peers), clock);
    lemma_without_peers_same(v1, stale, now);
    lemma_without_peers_ended(v1, stale, now);
    let v2 = without_stale(v1, clock, now);
    let topics = closed_topics(listing::<Topic, SubscriptionView<H>>(v2.subscriptions));
    lemma_without_subscriptions_same(v2, topics);
    lemma_without_subscriptions_kept(v2, topics);
    let v3 = without_closed(v2);
    lemma_without_peers_records(v1, stale, now);
    let s = record_list(v3.records);
    lemma_judged_kept(v3, s.len(), t, error);
    lemma_judged_settles(v3, s.len(), t, error);
    let v4 = judged(v3, t, error);
    let v5 = forgotten(v4, t);
    let v6 = after_failures(v5, error, t, now);
    let x = tidied(v, clock, now);
    assert(x.deliveries == v6.deliveries);
    lemma_tidied_in_order(v, clock, now);
    vstd::set_lib::lemma_set_subset_finite(v.deliveries.pending.dom(), x.deliveries.pending.dom());
    let (u, funds) = choose|u: OwnerView<H>, funds: Seq<Option<H>>| #[trigger]
        considered_all(x, u, clock, f, g, attach, funds) && scheduled_somehow(u, w, clock, now);
    lemma_granted_same(after_queue(x, clock), queue(x, clock), funds, queue(x, clock).len());
    let jitters = choose|jitters: Seq<u16>|
        jitters.len() == delivery_list(u.deliveries.pending).len() && w == #[trigger] scheduled(
            u,
            clock,
            now,
            jitters,
        );
    let n = delivery_list(u.deliveries.pending).len();
    lemma_scheduled_remembers(u, n, clock, now, jitters);
    lemma_attempts_keep(u, n, clock, now, jitters);
    let d = v.deliveries;
    let e = w.deliveries;
    let mid = v5.deliveries;
    let grace = grace_of(v.config);
    assert(e.closed == v6.deliveries.closed && e.ended == v6.deliveries.ended);
    assert forall|k: DeliveryKeyView| #[trigger]
        e.pending.contains_key(k) == v6.deliveries.pending.contains_key(k) by {
        assert(e.pending.dom().contains(k) == v6.deliveries.pending.dom().contains(k));
    }
    assert(v4.deliveries == v2.deliveries);
    assert(ended_between(d, v4.deliveries, grace));
    assert(mid.pending == v4.deliveries.pending && mid.ended == v4.deliveries.ended);
    assert(v5.config == v.config);
    assert(ended_between(mid, v6.deliveries, grace));
    assert forall|k: DeliveryKeyView| #[trigger] e.closed.contains_key(k) implies {
        ||| d.closed.contains_key(k) && e.closed[k] == d.closed[k] && t < d.closed[k].expires
        ||| ended_in(d, e, k) && e.closed[k] == closing(d.pending[k], grace)
    } by {
        assert(v6.deliveries.closed.contains_key(k));
        if mid.closed.contains_key(k) && e.closed[k] == mid.closed[k] {
            assert(v4.deliveries.closed.contains_key(k));
            if !(d.closed.contains_key(k) && mid.closed[k] == d.closed[k]) {
                assert(ended_in(d, v4.deliveries, k));
                assert(!v6.deliveries.pending.contains_key(k));
            }
        } else {
            assert(ended_in(mid, v6.deliveries, k));
            assert(v4.deliveries.pending.contains_key(k));
        }
    }
    assert forall|k: DeliveryKeyView|
        d.closed.contains_key(k) && !d.pending.contains_key(k) implies (
    #[trigger] e.closed.contains_key(k) <==> t < d.closed[k].expires) by {
        assert(v4.deliveries.closed.contains_key(k));
        assert(!v4.deliveries.pending.contains_key(k));
        if t < d.closed[k].expires {
            assert(mid.closed.contains_key(k) && !mid.pending.contains_key(k));
        } else if e.closed.contains_key(k) {
            assert(v6.deliveries.closed.contains_key(k));
        }
    }
    assert forall|k: DeliveryKeyView| #[trigger]
        ended_in(d, e, k) && t < closing(d.pending[k], grace).expires implies e.closed.contains_key(
        k,
    ) by {
        if v4.deliveries.pending.contains_key(k) {
            assert(ended_in(mid, v6.deliveries, k));
        } else {
            assert(ended_in(d, v4.deliveries, k));
            assert(v4.deliveries.closed.contains_key(k));
            assert(mid.closed.contains_key(k) && !mid.pending.contains_key(k));
        }
    }
    assert forall|k: DeliveryKeyView| #[trigger]
        d.pending.contains_key(k) && !e.pending.contains_key(k) implies failed_in(e, k) by {
        if v4.deliveries.pending.contains_key(k) {
            assert(mid.pending.contains_key(k) && !v6.deliveries.pending.contains_key(k));
            assert(failed_in(v6.deliveries, k));
        } else {
            assert(failed_in(v4.deliveries, k));
            assert(failed_in(mid, k) && !mid.pending.contains_key(k));
            assert(failed_in(v6.deliveries, k));
        }
    }
}

/// Whoever is granted room has it set aside: one message and the bytes of its frame come out of what
/// the subscription may have out, and fit in it together with all that others were granted. Whoever
/// is not takes nothing away.
pub proof fn law_room_that_is_granted_is_set_aside<H, F: Fn(&Topic, CreditPermits) -> H>(
    v: OwnerView<H>,
    w: OwnerView<H>,
    clock: Option<u64>,
    f: FundsView,
    g: FundsView,
    attach: F,
    funds: Seq<Option<H>>,
    i: nat,
)
    requires
        considered_all(v, w, clock, f, g, attach, funds),
        i < queue(v, clock).len(),
    ensures
        ({
            let q = queue(v, clock);
            let u = after_queue(v, clock);
            let (topic, peer) = q[i as int];
            let before = funds_upto(u, q, funds, f, i);
            let after = funds_upto(u, q, funds, f, i + 1);
            let a = before.allowances[topic];
            let b = after.allowances[topic];
            let needed = credit_needed(granted_upto(u, q, funds, i), topic, peer);
            if funds[i as int] is Some {
                &&& needed is Some
                &&& before.allowances.contains_key(topic) && after.allowances.contains_key(topic)
                &&& b.slots.used == a.slots.used + 1 <= a.slots.limit == b.slots.limit
                &&& b.bytes.used == a.bytes.used + needed->0.bytes <= a.bytes.limit == b.bytes.limit
            } else {
                before.allowances.contains_key(topic) ==> {
                    &&& after.allowances.contains_key(topic)
                    &&& b.slots.reservations == a.slots.reservations && b.slots.used == a.slots.used
                    &&& b.bytes.reservations == a.bytes.reservations && b.bytes.used == a.bytes.used
                }
            }
        }),
{
    let q = queue(v, clock);
    let u = after_queue(v, clock);
    let (topic, peer) = q[i as int];
    let before = funds_upto(u, q, funds, f, i);
    assert(fund_of(attach, topic, permits_at(u, q, funds, f, i), funds[i as int]));
    match credit_needed(granted_upto(u, q, funds, i), topic, peer) {
        None => {},
        Some(c) => {
            law_room_is_all_or_nothing(sources(before, topic), c);
        },
    }
}

} // verus!
