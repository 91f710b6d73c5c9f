//! What the operations of an endpoint and of an authority come to, whenever they are called: each
//! law speaks of any call of one operation, by what it was given, what it returned, and what it
//! changed.
use crate::address::EndpointAddr;
use crate::admission::{
    code_added, code_review, empty_host, enrollment_certificate, enrollment_outcome,
    enrollment_review, host_bytes, host_of, members_current, peer_admitted, pruned, Admission,
    AdmissionView, Grant, Host, HostStorage, Meter, Redemption,
};
use crate::allowances::{
    after_funding, after_return, funding_refusal, Allowances, CreditCharge, CreditPermits,
    FundsView,
};
use crate::auth::{
    certificate_outcome, claims_allow, id_views, issued, permission_views, trust_apply, trust_check,
    trust_verify, Authority, Certificate, CertificateLimits, Permission, RevocationSnapshot, Trust,
    TrustView,
};
use crate::bootstrap::{law_request_round_trip, parse_request, reply, request, Enrollment};
use crate::buffer::{Budget, BufferPool, Permit};
use crate::control::{after_control, after_remote};
use crate::course::law_upkeep_sends_what_can_go;
use crate::credits::{
    after_queue, considered_all, credit_needed, funded, maintained, queue, scheduled_somehow,
    waiting_views, with_grant,
};
use crate::crypto::{public_key, sha256, EndpointId, Id};
use crate::deliveries::{DeliveryKey, DeliveryKeyView, Ended, RecordKey};
use crate::effects::{law_cancelling_ends_one_message, law_subscription_is_announced, untouched};
use crate::endpoint::{Config, Disposition, Metrics, PublishOptions, RecipientOutcome};
use crate::enrollment::{
    after_redeem, invitation_review, invite_outcome, invited, parse_answer, redeem_bytes,
    redeem_review, redeemed_certificate, EnrollmentInvite, EnrollmentService, InvitationTerms,
    InvitationView,
};
use crate::error::Error;
use crate::exchange::{
    attempted_once, granted, law_message_is_as_asked, law_message_is_on_its_way_to_each,
    law_nothing_is_left_that_could_go, ready,
};
use crate::grants::{
    law_certificate_has_its_terms, law_code_brings_its_terms, law_code_keeps_its_terms,
    law_invitation_brings_its_terms, law_use_of_a_code_is_told,
};
use crate::identity::Identity;
use crate::incoming::{after_begin, received, ticket_outcome, with_disposition, Arrival, Ticket};
use crate::invite::PeerInvite;
use crate::join::{JoinCode, JoinOptions};
use crate::laws::{in_order, law_published_to_the_eligible, law_what_is_left_is_in_order};
use crate::ledger::{since, AskedView, Ledger};
use crate::lifecycle::{
    attempt_accepted, attempt_counted, denied, dial_review, ended, endings_taken, is_drained,
    metrics_of, outbox_taken, renewal, renewal_review, replies_taken, revoked_by, shut_down,
    writes_taken, MemoryUse,
};
use crate::message::{signed_envelope_of, valid_topic, DeliveryMode, Envelope, MessageId, Topic};
use crate::octets::lemma_bytes_less_irreflexive;
use crate::ordered::OrderedMap;
use crate::outgoing::{
    after_numbering, after_sent, backlog_bytes, backlog_messages, cancelled, delivery_list,
    first_outcomes, outcome_views, placed_upto, placing, publication_outcome, scheduled, with_room,
    Publication,
};
use crate::owner::{
    control_views, fresh_owner, key_views, registered, session_over, session_review,
    subscription_review, valid_peer, valid_time, without_peer, Owner, OwnerView, PeerView, Reply,
    Session,
};
use crate::publishing::{attachments, put_on_its_way, OpenedView, Receipts};
use crate::session::{greeting_of, review_hello, session_dialer, Greeting};
use crate::time::Duration;
use crate::upkeep::{tidied, with_closed, with_lost};
use crate::wire::{
    control_valid, hello, law_control_round_trip, law_hello_round_trip, parse_hello, Control,
    ControlView, Hello, HelloView,
};
use std::sync::Arc;
use vstd::prelude::*;
use vstd::utf8::encode_utf8;

verus! {

// Subscriptions

/// After a call of `subscribe` that succeeds, every peer that was connected before is to be told,
/// after what it was to be told before, exactly one record more: the topic, the identifier of the
/// subscription and the mode. A call that fails changes nothing.
pub proof fn law_subscribe<H>(
    o: &mut Owner<H>,
    topic: Topic,
    mode: DeliveryMode,
    id: Id,
    reserved: Result<H, Error>,
    clock: Option<u64>,
    r: Result<(), Error>,
)
    requires
        call_ensures(Owner::<H>::subscribe, (o, topic, mode, id, reserved, clock), r),
    ensures
        r is Ok <==> subscription_review(old(o)@, topic@, clock) is Ok && reserved is Ok,
        r is Ok ==> {
            &&& final(o)@.peers.dom() == old(o)@.peers.dom()
            &&& forall|p: Seq<u8>| #[trigger]
                old(o)@.peers.contains_key(p) ==> {
                    &&& final(o)@.peers[p].outbox == old(o)@.peers[p].outbox.push(
                        ControlView::Subscribe { topic: topic@, sub: id@, mode },
                    )
                    &&& final(o)@.peers[p] == (PeerView {
                        outbox: final(o)@.peers[p].outbox,
                        ..old(o)@.peers[p]
                    })
                }
            &&& final(o)@.subscriptions.dom() == old(o)@.subscriptions.dom().insert(topic@)
            &&& final(o)@.subscriptions[topic@].id == id@
            &&& final(o)@.subscriptions[topic@].mode == mode
            &&& final(o)@ == (OwnerView {
                peers: final(o)@.peers,
                subscriptions: final(o)@.subscriptions,
                ..old(o)@
            })
        },
        r is Err ==> final(o)@ == old(o)@,
{
    if let Ok(held) = reserved {
        law_subscription_is_announced(old(o)@, topic@, id@, mode, held);
    }
}

/// After a call of `unsubscribe`, the subscription is gone and every peer is to be told, after what
/// it was to be told before, exactly one record more: the topic and the identifier of the
/// subscription.
pub proof fn law_unsubscribe<H>(o: &mut Owner<H>, topic: &Topic)
    requires
        call_ensures(Owner::<H>::unsubscribe, (o, topic), ()),
    ensures
        old(o)@.subscriptions.contains_key(topic@) ==> {
            &&& final(o)@.subscriptions == old(o)@.subscriptions.remove(topic@)
            &&& final(o)@.peers.dom() == old(o)@.peers.dom()
            &&& forall|p: Seq<u8>| #[trigger]
                old(o)@.peers.contains_key(p) ==> final(o)@.peers[p].outbox
                    == old(o)@.peers[p].outbox.push(
                    ControlView::Unsubscribe {
                        topic: topic@,
                        sub: old(o)@.subscriptions[topic@].id,
                    },
                )
        },
        !old(o)@.subscriptions.contains_key(topic@) ==> final(o)@ == old(o)@,
{
}

/// What the application lets go of, and what the connection layer loses, is noted and nothing else.
pub proof fn law_note_closed_and_lost<H>(
    o: &mut Owner<H>,
    topic: &Topic,
    q: &mut Owner<H>,
    peer: &EndpointId,
)
    requires
        call_ensures(Owner::<H>::note_closed, (o, topic), ()),
        call_ensures(Owner::<H>::note_lost, (q, peer), ()),
    ensures
        old(o)@.subscriptions.contains_key(topic@) ==> final(o)@.subscriptions[topic@].closed,
        final(o)@ == with_closed(old(o)@, topic@),
        old(q)@.peers.contains_key(peer@) ==> final(q)@.peers[peer@].lost,
        final(q)@ == with_lost(old(q)@, peer@),
{
}

// Publishing

/// A call of `number` that succeeds makes a message that says what the caller asked for: its
/// format, its mode, the time of the call, and an end that many whole seconds later as the lifetime
/// has. It describes the payload, and names the realm, the endpoint, its run and the topic.
pub proof fn law_number<H>(
    o: &mut Owner<H>,
    topic: Topic,
    payload: &[u8],
    mode: DeliveryMode,
    lifetime: Duration,
    format: String,
    clock: Option<u64>,
    r: Result<Publication, Error>,
)
    requires
        call_ensures(Owner::<H>::number, (o, topic, payload, mode, lifetime, format, clock), r),
        payload@.len() <= u64::MAX,
    ensures
        r matches Ok(m) ==> {
            let e = m@.envelope;
            &&& e.format == format@
            &&& e.mode == mode
            &&& clock == Some(e.created)
            &&& e.expires == e.created + lifetime@ / 1_000_000_000
            &&& e.len == payload@.len()
            &&& e.digest == sha256(payload@)
            &&& e.id.realm_id == old(o)@.config.trust.realm
            &&& e.id.publisher_endpoint_id == public_key(old(o)@.secret)
            &&& e.id.publisher_epoch == old(o)@.epoch
            &&& e.id.topic == topic@
            &&& m@.lifetime == lifetime@
            &&& final(o)@.sequences == old(o)@.sequences.insert(topic@, e.id.sequence)
            &&& final(o)@ == (OwnerView { sequences: final(o)@.sequences, ..old(o)@ })
        },
        (final(o)@, publication_outcome(r)) == after_numbering(
            old(o)@,
            topic@,
            payload@,
            mode,
            lifetime@,
            format@,
            clock,
        ),
{
    law_message_is_as_asked(old(o)@, topic@, payload@, mode, lifetime@, format@, clock);
}

/// A call of `place` puts the message on its way to each who should get it, in turn, and tells of
/// each what came of it.
pub proof fn law_place<H>(
    o: &mut Owner<H>,
    m: &Publication,
    held: Vec<(H, H)>,
    now: u128,
    r: Vec<(EndpointId, RecipientOutcome)>,
)
    requires
        call_ensures(Owner::<H>::place, (o, m, held, now), r),
    ensures
        r@.len() == m@.recipients.len(),
        forall|i: int|
            0 <= i < r@.len() ==> (#[trigger] r@[i]).0@ == m@.recipients[i].0,
        final(o)@ == placed_upto(old(o)@, m@, held@, m@.recipients.len(), now),
        outcome_views(r@) == first_outcomes(old(o)@, m@, held@, now),
{
    assert(outcome_views(r@).len() == r@.len());
    assert forall|i: int| 0 <= i < r@.len() implies (#[trigger] r@[i]).0@ == m@.recipients[i].0 by {
        assert(outcome_views(r@)[i] == first_outcomes(old(o)@, m@, held@, now)[i]);
    }
}

/// A call of `publish` that fails puts nothing on its way. One that succeeds gives back the
/// identity of the message and what came of it at each peer that is to get it, and the message is
/// on its way to every peer of which that is left open, in the format and mode that the caller
/// asked for, made at the time of the call and lasting for the whole seconds of the lifetime.
pub proof fn law_publish<H, R: Receipts<H>>(
    o: &mut Owner<H>,
    topic: Topic,
    payload: &[u8],
    options: PublishOptions,
    t: u64,
    now: u128,
    receipts: &mut Ledger<R, OpenedView<H>>,
    r: Result<(MessageId, Vec<(EndpointId, RecipientOutcome)>), Error>,
)
    requires
        call_ensures(
            Owner::<H>::publish::<R>,
            (o, topic, payload, options, Some(t), now, receipts),
            r,
        ),
        old(o)@.peers.dom().finite(),
        old(o)@.deliveries.pending.dom().finite(),
        payload@.len() <= u64::MAX,
        now <= 18446744073709551615999999999,
        old(o)@.config.retry_interval <= 18446744073709551615999999999,
        options.lifetime@ <= 18446744073709551615999999999,
    ensures
        r is Err ==> final(o)@.deliveries == old(o)@.deliveries && final(o)@.peers == old(o)@.peers,
        ({
            let opened = since(old(receipts).log(), final(receipts).log());
            let made = after_numbering(
                old(o)@,
                topic@,
                payload@,
                options.mode,
                options.lifetime@,
                options.format@,
                Some(t),
            ).1;
            &&& made is Err ==> r is Err && opened.len() == 0
            &&& made matches Ok(m) ==> m.signed.len() + 2048 <= usize::MAX ==> opened.len() > 0 && (
            r is Ok <==> opened.len() == m.recipients.len() && opened.last().result is Ok)
            &&& made matches Ok(m) ==> forall|i: int|
                0 <= i < opened.len() ==> (#[trigger] opened[i]).peer == m.recipients[i].0
                    && opened[i].bytes == m.signed.len() + 2048
            &&& r matches Ok((_, outcomes)) ==> opened.len() == outcomes@.len() && forall|i: int|
                0 <= i < opened.len() ==> (#[trigger] opened[i]).result is Ok
            &&& r matches Ok((_, outcomes)) ==> (made matches Ok(m) ==> {
                let numbered = OwnerView {
                    sequences: old(o)@.sequences.insert(topic@, m.envelope.id.sequence),
                    ..old(o)@
                };
                &&& outcome_views(outcomes@) == first_outcomes(
                    numbered,
                    m,
                    attachments(opened),
                    now,
                )
                &&& scheduled_somehow(
                    placed_upto(numbered, m, attachments(opened), m.recipients.len(), now),
                    final(o)@,
                    Some(t),
                    now,
                )
            })
            &&& r matches Err(e) ==> opened.len() > 0 ==> opened.last().result == Err::<
                (H, H),
                Error,
            >(e)
        }),
        r matches Ok((id, outcomes)) ==> {
            &&& id@.topic == topic@
            &&& id@.publisher_endpoint_id == public_key(old(o)@.secret)
            &&& id@.publisher_epoch == old(o)@.epoch
            &&& id@.realm_id == old(o)@.config.trust.realm
            &&& outcomes@.len() > 0
            &&& forall|i: int|
                0 <= i < outcomes@.len() ==> old(o)@.peers.contains_key(
                    (#[trigger] outcomes@[i]).0@,
                ) && old(o)@.peers[outcomes@[i].0@].outbound.contains_key(topic@)
            &&& forall|i: int|
                0 <= i < outcomes@.len() && (#[trigger] outcomes@[i]).1 is Pending ==> {
                    let k = DeliveryKeyView {
                        peer: outcomes@[i].0@,
                        sub: old(o)@.peers[outcomes@[i].0@].outbound[topic@].sub,
                        id: id@,
                    };
                    let p = final(o)@.deliveries.pending[k];
                    &&& final(o)@.deliveries.pending.contains_key(k)
                    &&& p.envelope.format == options.format@
                    &&& p.envelope.mode == options.mode
                    &&& p.envelope.created == t
                    &&& p.envelope.expires == t + options.lifetime@ / 1_000_000_000
                    &&& p.envelope.len == payload@.len()
                    &&& p.envelope.digest == sha256(payload@)
                    &&& p.envelope.id == id@
                    &&& p.deadline == now + options.lifetime@
                }
        },
{
    let v = old(o)@;
    let w = final(o)@;
    let format = options.format@;
    let lifetime = options.lifetime@;
    let mode = options.mode;
    let (numbered, outcome) = after_numbering(v, topic@, payload@, mode, lifetime, format, Some(t));
    let opened = since(old(receipts).log(), final(receipts).log());
    law_message_is_as_asked(v, topic@, payload@, mode, lifetime, format, Some(t));
    law_published_to_the_eligible(v, topic@, payload@, mode, lifetime, format, t);
    if let Ok((id, outcomes)) = r {
        let m = outcome->Ok_0;
        let held = attachments(opened);
        assert forall|i: int, j: int| 0 <= i < j < m.recipients.len() implies (
        #[trigger] m.recipients[i]).0 != (#[trigger] m.recipients[j]).0 by {
            lemma_bytes_less_irreflexive(m.recipients[i].0);
        }
        law_message_is_on_its_way_to_each(numbered, m, held, m.recipients.len(), now);
        let placed = put_on_its_way(numbered, m, held, now);
        let jitters = choose|jitters: Seq<u16>|
            jitters.len() == delivery_list(placed.deliveries.pending).len() && w
                == #[trigger] scheduled(placed, Some(t), now, jitters);
        law_nothing_is_left_that_could_go(placed, Some(t), now, jitters);
        assert(outcome_views(outcomes@).len() == outcomes@.len());
        assert forall|i: int| 0 <= i < opened.len() implies (#[trigger] opened[i]).result is Ok by {
            assert(opened.last() == opened[opened.len() - 1]);
        }
        assert forall|i: int| 0 <= i < outcomes@.len() implies (#[trigger] outcomes@[i]).0@
            == m.recipients[i].0 && v.peers.contains_key(m.recipients[i].0)
            && v.peers[m.recipients[i].0].outbound.contains_key(topic@)
            && v.peers[m.recipients[i].0].outbound[topic@].sub == m.recipients[i].1
            && outcomes@[i].1 == placing(
            placed_upto(numbered, m, held, i as nat, now),
            m,
            m.recipients[i].0,
        ) by {
            assert(outcome_views(outcomes@)[i] == first_outcomes(numbered, m, held, now)[i]);
            assert(m.recipients.contains(m.recipients[i]));
        }
        assert forall|i: int|
            0 <= i < outcomes@.len() && (#[trigger] outcomes@[i]).1 is Pending implies ({
            let k = DeliveryKeyView {
                peer: outcomes@[i].0@,
                sub: v.peers[outcomes@[i].0@].outbound[topic@].sub,
                id: id@,
            };
            &&& w.deliveries.pending.contains_key(k)
            &&& w.deliveries.pending[k].envelope == m.envelope
            &&& w.deliveries.pending[k].deadline == now + lifetime
        }) by {
            let k = DeliveryKeyView {
                peer: outcomes@[i].0@,
                sub: v.peers[outcomes@[i].0@].outbound[topic@].sub,
                id: id@,
            };
            assert(outcomes@[i].0@ == m.recipients[i].0);
            assert(placed.deliveries.pending.contains_key(k));
            assert(w.deliveries.pending.dom().contains(k));
        }
    }
}

/// A call of `schedule_with` attempts what can be attempted. After the n-th attempt at a delivery
/// the next is due no sooner than after the retry interval, and sooner than a tenth of a second
/// after the retry interval doubled n - 1 times, five at most, whatever the deadline. A delivery
/// whose time has come and whose peer has granted the bytes that it takes is not left unattempted.
pub proof fn law_schedule<H>(
    o: &mut Owner<H>,
    clock: Option<u64>,
    now: u128,
    jitters: &Vec<u16>,
)
    requires
        call_ensures(Owner::<H>::schedule_with, (o, clock, now, jitters), ()),
        old(o)@.deliveries.pending.dom().finite(),
        now <= 18446744073709551615999999999,
        old(o)@.config.retry_interval <= 18446744073709551615999999999,
    ensures
        final(o)@.deliveries.pending.dom() == old(o)@.deliveries.pending.dom(),
        forall|k: DeliveryKeyView| #[trigger]
            old(o)@.deliveries.pending.contains_key(k) ==> final(o)@.deliveries.pending[k]
                == old(o)@.deliveries.pending[k] || attempted_once(
                old(o)@.deliveries.pending[k],
                final(o)@.deliveries.pending[k],
                old(o)@.config.retry_interval,
                now,
            ),
        forall|k: DeliveryKeyView| #[trigger]
            old(o)@.deliveries.pending.contains_key(k) ==> !(ready(final(o)@, k, clock, now)
                && granted(final(o)@, k)),
        final(o)@ == scheduled(old(o)@, clock, now, jitters@),
{
    law_nothing_is_left_that_could_go(old(o)@, clock, now, jitters@);
}

/// A call of `schedule` does the same, whatever jitters are drawn.
pub proof fn law_schedule_by_chance<H>(o: &mut Owner<H>, clock: Option<u64>, now: u128)
    requires
        call_ensures(Owner::<H>::schedule, (o, clock, now), ()),
        old(o)@.deliveries.pending.dom().finite(),
        now <= 18446744073709551615999999999,
        old(o)@.config.retry_interval <= 18446744073709551615999999999,
    ensures
        final(o)@.deliveries.pending.dom() == old(o)@.deliveries.pending.dom(),
        forall|k: DeliveryKeyView| #[trigger]
            old(o)@.deliveries.pending.contains_key(k) ==> final(o)@.deliveries.pending[k]
                == old(o)@.deliveries.pending[k] || attempted_once(
                old(o)@.deliveries.pending[k],
                final(o)@.deliveries.pending[k],
                old(o)@.config.retry_interval,
                now,
            ),
        forall|k: DeliveryKeyView| #[trigger]
            old(o)@.deliveries.pending.contains_key(k) ==> !(ready(final(o)@, k, clock, now)
                && granted(final(o)@, k)),
{
    let jitters = choose|jitters: Seq<u16>|
        jitters.len() == delivery_list(old(o)@.deliveries.pending).len()
            && final(o)@ == #[trigger] scheduled(old(o)@, clock, now, jitters);
    law_nothing_is_left_that_could_go(old(o)@, clock, now, jitters);
}

/// A call of `cancel` ends each pending delivery of the message as cancelled, and leaves every
/// delivery of any other message, in sequence as in any other part of its identity, pending and
/// unchanged.
pub proof fn law_cancel<H>(o: &mut Owner<H>, id: &MessageId)
    requires
        call_ensures(Owner::<H>::cancel, (o, id), ()),
    ensures
        forall|k: DeliveryKeyView| #[trigger]
            old(o)@.deliveries.pending.contains_key(k) && k.id == id@
                ==> !final(o)@.deliveries.pending.contains_key(k)
                && final(o)@.deliveries.ended.contains_key(k) && final(o)@.deliveries.ended[k].outcome
                == RecipientOutcome::Cancelled,
        forall|k: DeliveryKeyView| #[trigger]
            old(o)@.deliveries.pending.contains_key(k) && k.id != id@
                ==> final(o)@.deliveries.pending.contains_key(k) && final(o)@.deliveries.pending[k]
                == old(o)@.deliveries.pending[k],
        forall|k: DeliveryKeyView| #[trigger]
            final(o)@.deliveries.pending.contains_key(k) ==> old(o)@.deliveries.pending.contains_key(
                k,
            ),
        final(o)@ == (OwnerView { deliveries: final(o)@.deliveries, ..old(o)@ }),
{
    law_cancelling_ends_one_message(old(o)@, id@);
    assert forall|k: DeliveryKeyView| #[trigger]
        old(o)@.deliveries.pending.contains_key(k) && k.id != id@ implies {
        &&& final(o)@.deliveries.pending.contains_key(k)
        &&& final(o)@.deliveries.pending[k] == old(o)@.deliveries.pending[k]
    } by {
        assert(untouched(old(o)@.deliveries, cancelled(old(o)@, id@).deliveries, k));
    }
    assert forall|k: DeliveryKeyView| #[trigger]
        final(o)@.deliveries.pending.contains_key(k) implies old(o)@.deliveries.pending.contains_key(k) by {
        assert(cancelled(old(o)@, id@).deliveries.pending.contains_key(k));
    }
}

/// Calls that report on a binding's room and on an attempt are followed up.
pub proof fn law_note_room_and_sent<H>(
    o: &mut Owner<H>,
    peer: &EndpointId,
    topic: &Topic,
    room: bool,
    q: &mut Owner<H>,
    key: &DeliveryKey,
    session: &Id,
    result: Result<(), Error>,
    now: u128,
)
    requires
        call_ensures(Owner::<H>::note_room, (o, peer, topic, room), ()),
        call_ensures(Owner::<H>::sent, (q, key, session, result, now), ()),
    ensures
        final(o)@ == with_room(old(o)@, peer@, topic@, room),
        final(q)@ == after_sent(old(q)@, key@, session@, result, now),
{
}

// Sessions

/// A call of `register` takes the session up, or changes nothing.
pub proof fn law_register<H>(
    o: &mut Owner<H>,
    peer: EndpointId,
    reg: Session<H>,
    reserved: Result<(), Error>,
    clock: Option<u64>,
    now: u128,
    r: Result<bool, Error>,
)
    requires
        call_ensures(Owner::<H>::register, (o, peer, reg, reserved, clock, now), r),
    ensures
        (final(o)@, r) == registered(old(o)@, peer@, reg@, reserved, clock, now),
        r == Ok::<bool, Error>(true) ==> final(o)@.peers.contains_key(peer@)
            && final(o)@.peers[peer@].reg == reg@,
        r != Ok::<bool, Error>(true) ==> final(o)@ == old(o)@,
{
}

/// Calls of `remove_peer` and `end_session` let a peer go.
pub proof fn law_remove_peer_and_end_session<H>(
    o: &mut Owner<H>,
    q: &mut Owner<H>,
    peer: &EndpointId,
    session: &Id,
    now: u128,
)
    requires
        call_ensures(Owner::<H>::remove_peer, (o, peer, now), ()),
        call_ensures(Owner::<H>::end_session, (q, peer, session, now), ()),
    ensures
        final(o)@ == without_peer(old(o)@, peer@, now),
        final(q)@ == session_over(old(q)@, peer@, session@, now),
{
}

/// What an endpoint and its peers may do is told by the certificates, the time and the session.
pub proof fn law_local_and_peer_valid<H>(
    o: &Owner<H>,
    peer: &EndpointId,
    session: &Id,
    clock: Option<u64>,
    r: Result<u64, Error>,
    q: Result<u64, Error>,
)
    requires
        call_ensures(Owner::<H>::local_valid, (o, clock), r),
        call_ensures(Owner::<H>::peer_valid, (o, peer, session, clock), q),
    ensures
        r == valid_time(o@, clock),
        q == valid_peer(o@, peer@, session@, clock),
{
}

// What comes in

/// A record that comes in does what it says, by way of `control` and `remote`.
pub proof fn law_control_and_remote<H>(
    o: &mut Owner<H>,
    q: &mut Owner<H>,
    peer: &EndpointId,
    session: &Id,
    control: Control,
    writer: Result<H, Error>,
    clock: Option<u64>,
    now: u128,
    r: Result<(), Error>,
)
    requires
        call_ensures(Owner::<H>::control, (o, peer, control, writer, now), r),
        call_ensures(Owner::<H>::remote, (q, peer, session, control, writer, clock, now), ()),
    ensures
        (final(o)@, r) == after_control(old(o)@, peer@, control@, writer, now),
        final(q)@ == after_remote(old(q)@, peer@, session@, control@, writer, clock, now),
{
}

/// A message that comes in is checked by `begin`, and dealt with by `receive` once it is there
/// whole.
pub proof fn law_begin<H>(
    o: &mut Owner<H>,
    peer: &EndpointId,
    session: &Id,
    sub: &Id,
    stream: u64,
    signed: &[u8],
    len: usize,
    clock: Option<u64>,
    r: Result<Ticket<H>, Error>,
)
    requires
        call_ensures(Owner::<H>::begin, (o, peer, session, sub, stream, signed, len, clock), r),
    ensures
        (final(o)@, ticket_outcome(r)) == after_begin(
            old(o)@,
            peer@,
            session@,
            sub@,
            stream,
            signed@,
            len as nat,
            clock,
        ),
{
}

/// A message that has come in whole is dealt with as it is to be, or lets its peer go.
pub proof fn law_receive<H>(
    o: &mut Owner<H>,
    peer: &EndpointId,
    session: &Id,
    sub: &Id,
    ticket: Ticket<H>,
    payload: &[u8],
    room: bool,
    waiter: H,
    clock: Option<u64>,
    now: u128,
    r: Option<Arrival>,
)
    requires
        call_ensures(
            Owner::<H>::receive,
            (o, peer, session, sub, ticket, payload, room, waiter, clock, now),
            r,
        ),
    ensures
        (final(o)@, r) == received(
            old(o)@,
            peer@,
            session@,
            sub@,
            ticket@,
            payload@,
            room,
            waiter,
            clock,
            now,
        ),
        r is None ==> !final(o)@.peers.contains_key(peer@),
{
}

/// What a handler says is noted, and room is granted, as they are to be.
pub proof fn law_note_disposition_and_grant_credit<H>(
    o: &mut Owner<H>,
    key: &RecordKey,
    said: Disposition,
    q: &mut Owner<H>,
    topic: &Topic,
    peer: &EndpointId,
    held: H,
)
    requires
        call_ensures(Owner::<H>::note_disposition, (o, key, said), ()),
        call_ensures(Owner::<H>::grant_credit, (q, topic, peer, held), ()),
    ensures
        final(o)@ == with_disposition(old(o)@, key@, said),
        final(q)@ == with_grant(old(q)@, topic@, peer@, held),
{
}

/// Room is to be granted to those who wait, in turn, and has its price.
pub proof fn law_credit_queue_and_charge<H>(
    o: &mut Owner<H>,
    clock: Option<u64>,
    q: Vec<(Topic, EndpointId)>,
    p: &Owner<H>,
    topic: &Topic,
    peer: &EndpointId,
    c: Option<CreditCharge>,
)
    requires
        call_ensures(Owner::<H>::credit_queue, (o, clock), q),
        call_ensures(Owner::<H>::credit_charge, (p, topic, peer), c),
    ensures
        waiting_views(q@) == queue(old(o)@, clock),
        final(o)@ == after_queue(old(o)@, clock),
        c == credit_needed(p@, topic@, peer@),
{
}

// The course of things

/// A call of `tidy` sees to everything.
pub proof fn law_tidy<H>(o: &mut Owner<H>, clock: Option<u64>, now: u128)
    requires
        call_ensures(Owner::<H>::tidy, (o, clock, now), ()),
    ensures
        final(o)@ == tidied(old(o)@, clock, now),
{
}

/// Connections are reviewed before they are made, and counted as they come in.
pub proof fn law_review_dial_and_count_attempt<H>(
    o: &Owner<H>,
    invite: &PeerInvite,
    clock: Option<u64>,
    r: Result<bool, Error>,
    q: &mut Owner<H>,
    now: u128,
    accepted: bool,
)
    requires
        call_ensures(Owner::<H>::review_dial, (o, invite, clock), r),
        call_ensures(Owner::<H>::count_attempt, (q, now), accepted),
    ensures
        r == dial_review(o@, invite@, clock),
        final(q)@ == attempt_counted(old(q)@, now),
        accepted == attempt_accepted(old(q)@, now),
{
}

/// Calls of `renew`, `deny_certificate` and `apply_revocations` change the authorization of an
/// endpoint, or nothing.
pub proof fn law_renew<H>(
    o: &mut Owner<H>,
    certificate: Certificate,
    reserved: Result<(), Error>,
    clock: Option<u64>,
    now: u128,
    r: Result<(), Error>,
)
    requires
        call_ensures(Owner::<H>::renew, (o, certificate, reserved, clock, now), r),
    ensures
        (final(o)@, r) == renewal(old(o)@, certificate@, reserved, clock, now),
        r is Err ==> final(o)@ == old(o)@,
{
}

/// What is denied or revoked is so from then on.
pub proof fn law_deny_and_revoke<H>(
    o: &mut Owner<H>,
    id: Id,
    r: Result<bool, Error>,
    q: &mut Owner<H>,
    snapshot: &RevocationSnapshot,
    clock: Option<u64>,
    n: Result<usize, Error>,
)
    requires
        call_ensures(Owner::<H>::deny_certificate, (o, id), r),
        call_ensures(Owner::<H>::apply_revocations, (q, snapshot, clock), n),
    ensures
        (final(o)@, r) == denied(old(o)@, id@),
        r is Ok ==> final(o)@.config.trust.revoked.contains(id@),
        (final(q)@, n) == revoked_by(old(q)@, snapshot@, clock),
{
}

/// Calls of `shutdown`, `drained` and `finish` end an endpoint.
pub proof fn law_shutdown_and_finish<H>(
    o: &mut Owner<H>,
    deadline: u128,
    r: Result<(), Error>,
    p: &Owner<H>,
    now: u128,
    done: bool,
    q: &mut Owner<H>,
)
    requires
        call_ensures(Owner::<H>::shutdown, (o, deadline), r),
        call_ensures(Owner::<H>::drained, (p, now), done),
        call_ensures(Owner::<H>::finish, (q,), ()),
    ensures
        (final(o)@, r) == shut_down(old(o)@, deadline),
        done == is_drained(p@, now),
        final(q)@ == ended(old(q)@),
{
}

/// What is taken out of an endpoint is all that was there.
pub proof fn law_take_outbox_and_writes<H>(
    o: &mut Owner<H>,
    peer: &EndpointId,
    outbox: Vec<Control>,
    q: &mut Owner<H>,
    writes: Vec<DeliveryKey>,
)
    requires
        call_ensures(Owner::<H>::take_outbox, (o, peer), outbox),
        call_ensures(Owner::<H>::take_writes, (q,), writes),
    ensures
        (final(o)@, control_views(outbox@)) == outbox_taken(old(o)@, peer@),
        (final(q)@, key_views(writes@)) == writes_taken(old(q)@),
{
}

/// What publishers and handlers are to be told is all that was there.
pub proof fn law_take_ended_and_replies<H>(
    o: &mut Owner<H>,
    all: OrderedMap<DeliveryKey, Ended<H>>,
    q: &mut Owner<H>,
    replies: OrderedMap<RecordKey, Reply<H>>,
)
    requires
        call_ensures(Owner::<H>::take_ended, (o,), all),
        call_ensures(Owner::<H>::take_replies, (q,), replies),
    ensures
        (final(o)@, all@) == endings_taken(old(o)@),
        (final(q)@, replies@) == replies_taken(old(q)@),
{
}

/// The measures of an endpoint are taken as it is.
pub proof fn law_metrics<H>(o: &Owner<H>, memory: MemoryUse, m: Metrics)
    requires
        call_ensures(Owner::<H>::metrics, (o, memory), m),
    ensures
        m == metrics_of(o@, memory),
{
}

// Authorities

/// A certificate that a call of `issue_as` makes has every term that it was asked to have.
pub proof fn law_issue_as(
    a: &Authority,
    id: Id,
    subject: EndpointId,
    permissions: Vec<Permission>,
    not_before: u64,
    expires_at: u64,
    limits: CertificateLimits,
    r: Result<Certificate, Error>,
)
    requires
        call_ensures(
            Authority::issue_as,
            (a, id, subject, permissions, not_before, expires_at, limits),
            r,
        ),
    ensures
        r matches Ok(c) ==> {
            &&& c@.claims.subject == subject@
            &&& c@.claims.id == id@
            &&& c@.claims.realm == a@.realm
            &&& c@.claims.issuer == public_key(a@.secret)
            &&& c@.claims.not_before == not_before
            &&& c@.claims.expires == expires_at
            &&& c@.claims.limits == limits
            &&& c@.claims.permissions.to_set() == permission_views(permissions@).to_set()
            &&& c@.claims.permissions.len() == permissions@.len()
        },
        certificate_outcome(r) == issued(
            a@,
            id@,
            subject@,
            permission_views(permissions@),
            not_before,
            expires_at,
            limits,
        ),
{
    law_certificate_has_its_terms(
        a@,
        id@,
        subject@,
        permission_views(permissions@),
        not_before,
        expires_at,
        limits,
    );
}

/// Certificates are checked and verified by who is trusted.
pub proof fn law_verify_and_check(
    t: &Trust,
    c: &Certificate,
    peer: EndpointId,
    now: u64,
    r: Result<(), Error>,
    q: Result<(), Error>,
)
    requires
        call_ensures(Trust::verify, (t, c, peer, now), r),
        call_ensures(Trust::check, (t, c, peer, now), q),
    ensures
        r == trust_verify(t@, c@, peer@, now),
        q == trust_check(t@, c@.claims, peer@, now),
{
}

/// A certificate that a call of `redeem_as` brings for an invitation that nobody has redeemed has
/// the invitation's terms: its limits, the same permissions, the redeemer for its subject, and a
/// life from now until as much later as the invitation says.
pub proof fn law_redeem_as<P>(
    s: &mut EnrollmentService<P>,
    a: &Authority,
    peer: EndpointId,
    id: &Id,
    secret: &[u8; 32],
    now: u64,
    trial: Id,
    r: Result<Certificate, Error>,
)
    requires
        call_ensures(
            EnrollmentService::<P>::redeem_as,
            (s, a, peer, id, secret, Some(now), trial),
            r,
        ),
        old(s)@.contains_key(id@) ==> now + old(s)@[id@].valid_for <= u64::MAX,
    ensures
        r matches Ok(c) ==> {
            let i = old(s)@[id@];
            &&& old(s)@.contains_key(id@) && now < i.expires && i.hash == sha256(secret@)
            &&& i.redeemed is None ==> {
                &&& c@.claims.limits == i.limits
                &&& c@.claims.permissions.to_set() == i.permissions.to_set()
                &&& c@.claims.subject == peer@
                &&& c@.claims.not_before == now
                &&& c@.claims.expires == now + i.valid_for
                &&& final(s)@ == old(s)@.insert(
                    id@,
                    InvitationView { redeemed: Some((peer@, c@)), ..i },
                )
            }
            &&& i.redeemed is Some ==> i.redeemed == Some((peer@, c@)) && final(s)@ == old(s)@
        },
        r is Err ==> final(s)@ == old(s)@,
{
    law_invitation_brings_its_terms(old(s)@, a@, peer@, id@, secret@, now, trial@);
    if let Ok(c) = r {
        if old(s)@[id@].redeemed is None {
            assert(final(s)@ =~= old(s)@.insert(
                id@,
                InvitationView { redeemed: Some((peer@, c@)), ..old(s)@[id@] },
            ));
        }
    }
}

/// An invitation that a call of `add_invite` gives out has the terms that were asked for, and lasts
/// for the whole seconds of its lifetime.
pub proof fn law_add_invite<P>(
    s: &mut EnrollmentService<P>,
    terms: InvitationTerms,
    contact: PeerInvite,
    now: u64,
    memory: P,
    id: Id,
    secret: [u8; 32],
    i: EnrollmentInvite,
)
    requires
        call_ensures(
            EnrollmentService::<P>::add_invite,
            (s, terms, contact, now, memory, id, secret),
            i,
        ),
        now + terms@.lifetime / 1_000_000_000 <= u64::MAX,
        terms@.valid_for / 1_000_000_000 <= u64::MAX,
    ensures
        final(s)@ == old(s)@.insert(
            id@,
            InvitationView {
                hash: sha256(secret@),
                expires: (now + terms@.lifetime / 1_000_000_000) as u64,
                valid_for: (terms@.valid_for / 1_000_000_000) as u64,
                permissions: terms@.permissions,
                limits: terms@.limits,
                redeemed: None,
            },
        ),
        i@.contact == contact@,
        i@.expires_at == now + terms@.lifetime / 1_000_000_000,
        i@.id == id@,
        i@.secret == secret@,
{
}

// Hosts

/// A code that a call of `issue_as` gives out is for the host's address and the secret that was
/// drawn, and is kept on the terms that were asked for. A call that fails adds no code.
pub proof fn law_issue_code<P, M: Meter<P>>(
    h: &mut Host<P>,
    options: JoinOptions,
    address: &EndpointAddr,
    now: u64,
    meter: &mut Ledger<M, AskedView>,
    max_codes: usize,
    trial: Id,
    secret: [u8; 32],
    r: Result<JoinCode, Error>,
)
    requires
        call_ensures(
            Host::<P>::issue_as::<M>,
            (h, options, address, now, meter, max_codes, trial, secret),
            r,
        ),
        now + options@.lifetime / 1_000_000_000 <= u64::MAX,
    ensures
        final(h)@.authority == old(h)@.authority,
        final(h)@.members == old(h)@.members,
        r matches Ok(c) ==> {
            let id = sha256(encode_utf8("iroh-mq/join-code-id/v3"@) + secret@).take(16);
            &&& c@.secret == secret@
            &&& c@.address.id == address@.id
            &&& c@.address.relays == address@.relays
            &&& final(h)@.codes.dom() == old(h)@.codes.dom().insert(id)
            &&& final(h)@.codes[id].options == options@
            &&& final(h)@.codes[id].hash == sha256(secret@)
            &&& final(h)@.codes[id].expires == now + options@.lifetime / 1_000_000_000
            &&& final(h)@.codes[id].redeemed.dom() == Set::<Seq<u8>>::empty()
            &&& old(h)@.codes.dom().len() < max_codes
        },
        r is Err ==> forall|k: Seq<u8>| #[trigger]
            final(h)@.codes.contains_key(k) ==> old(h)@.codes.contains_key(k)
                && final(h)@.codes[k] == old(h)@.codes[k],
{
    law_code_keeps_its_terms(old(h)@, options@, now, secret@);
}

/// What a call of `enroll_as` brings is told together with the authority and with the end of the
/// code. To one who had not used the code it brings a certificate on the code's terms: in their
/// name, with its limits and permissions, from now on, and no longer than the host's own; and it
/// makes them a member. A call that fails leaves the codes as they were.
pub proof fn law_enroll_as<P, M: Meter<P>>(
    h: &mut Host<P>,
    peer: EndpointId,
    id: Id,
    secret: [u8; 32],
    now: u64,
    host_expires: u64,
    trust: &Trust,
    meter: &mut Ledger<M, AskedView>,
    max_members: usize,
    certificate_id: Id,
    r: Result<Enrollment, Error>,
)
    requires
        call_ensures(
            Host::<P>::enroll_as::<M>,
            (h, peer, id, secret, now, host_expires, trust, meter, max_members, certificate_id),
            r,
        ),
    ensures
        final(h)@.authority == old(h)@.authority,
        r is Err ==> final(h)@.codes == old(h)@.codes,
        r matches Ok(e) ==> {
            let g = old(h)@.codes[id@];
            let c = e@.certificate;
            let until = now + g.options.certificate_lifetime / 1_000_000_000;
            &&& old(h)@.codes.contains_key(id@) && now < g.expires && g.hash == sha256(secret@)
            &&& e@.expires == g.expires
            &&& e@.trust.realm == old(h)@.authority.realm
            &&& e@.trust.root == public_key(old(h)@.authority.secret)
            &&& final(h)@.codes[id@].redeemed[peer@] == c
            &&& !g.redeemed.contains_key(peer@) ==> {
                &&& g.redeemed.dom().len() < g.options.max_uses
                &&& c.claims.subject == peer@
                &&& c.claims.id == certificate_id@
                &&& c.claims.limits == g.options.limits
                &&& c.claims.permissions.to_set() == g.options.permissions.to_set()
                &&& c.claims.not_before == now
                &&& until < host_expires ==> c.claims.expires == until
                &&& until >= host_expires ==> c.claims.expires == host_expires
                &&& final(h)@.members.contains_key(certificate_id@)
                &&& final(h)@.members[certificate_id@] == c
            }
        },
{
    law_use_of_a_code_is_told(
        old(h)@,
        peer@,
        id@,
        secret@,
        now,
        host_expires,
        trust@,
        max_members as nat,
        certificate_id@,
        enrollment_outcome(r),
        final(h)@,
        old(h).stored(),
        since(old(meter).log(), final(meter).log()),
        since(old(h).saves(), final(h).saves()),
    );
    law_code_brings_its_terms(old(h)@, peer@, id@, now, host_expires, certificate_id@);
}

/// A code that a call of `revoke_code` takes back is gone; if that could not be stored, it is as
/// before.
pub proof fn law_revoke_code<P>(h: &mut Host<P>, id: Id, r: Result<(), Error>)
    requires
        call_ensures(Host::<P>::revoke_code, (h, id), r),
    ensures
        r is Ok ==> final(h)@.codes == old(h)@.codes.remove(id@) && final(h)@.members
            == old(h)@.members && final(h)@.authority == old(h)@.authority,
        r is Err ==> final(h)@ == old(h)@,
{
}

/// Members are those whose certificates a host has recorded, each for its subject.
pub proof fn law_members<P>(
    h: &Host<P>,
    peer: EndpointId,
    c: &Certificate,
    member: bool,
    q: &mut Host<P>,
    now: u64,
)
    requires
        call_ensures(Host::<P>::is_member, (h, peer, c), member),
        call_ensures(Host::<P>::prune, (q, now), ()),
    ensures
        member <==> h@.members.contains_key(c@.claims.id)
            && h@.members[c@.claims.id].claims.subject == peer@,
        final(q)@ == pruned(old(q)@, now),
{
}

/// Someone who is recorded and then could not be stored is as before: what the code had brought
/// them before stands, and the certificate that is new is no member's.
pub proof fn law_enrollment_is_undone<P>(
    h: &mut Host<P>,
    peer: EndpointId,
    id: Id,
    c: &Certificate,
    previous: Option<Redemption<P>>,
    saved: Result<(), Error>,
    r: Result<(), Error>,
)
    requires
        call_ensures(Host::<P>::settle_enrollment, (h, peer, id, c, previous, saved), r),
        old(h)@.codes.contains_key(id@),
    ensures
        r == saved,
        saved is Ok ==> final(h)@ == old(h)@,
        saved is Err ==> {
            &&& final(h)@.members == old(h)@.members.remove(c@.claims.id)
            &&& final(h)@.authority == old(h)@.authority
            &&& final(h)@.codes.dom() == old(h)@.codes.dom()
            &&& forall|k: Seq<u8>| #[trigger]
                old(h)@.codes.contains_key(k) && k != id@ ==> final(h)@.codes[k] == old(h)@.codes[k]
            &&& previous is None ==> final(h)@.codes[id@].redeemed
                == old(h)@.codes[id@].redeemed.remove(peer@)
            &&& previous matches Some(had) ==> final(h)@.codes[id@].redeemed
                == old(h)@.codes[id@].redeemed.insert(peer@, had@)
        },
{
}

/// A code, or taking one back, that could not be stored is undone.
pub proof fn law_code_is_undone<P>(
    h: &mut Host<P>,
    id: &Id,
    saved: Result<(), Error>,
    r: Result<(), Error>,
    q: &mut Host<P>,
    removed: Option<Grant<P>>,
    s: Result<(), Error>,
)
    requires
        call_ensures(Host::<P>::settle_code, (h, id, saved), r),
        call_ensures(Host::<P>::settle_revocation, (q, *id, removed, saved), s),
    ensures
        r == saved && s == saved,
        saved is Ok ==> final(h)@ == old(h)@ && final(q)@ == old(q)@,
        saved is Err ==> final(h)@.codes == old(h)@.codes.remove(id@) && final(h)@.members
            == old(h)@.members,
        saved is Err ==> (removed matches Some(g) ==> final(q)@.codes == old(q)@.codes.insert(
            id@,
            g@,
        )),
        saved is Err && removed is None ==> final(q)@ == old(q)@,
{
}

/// What is to be stored of a host is the whole of it, where it is stored at all and fits.
pub proof fn law_state_to_save<P>(h: &Host<P>, r: Result<Option<Vec<u8>>, Error>)
    requires
        call_ensures(Host::<P>::state_to_save, (h,), r),
    ensures
        r == Ok::<Option<Vec<u8>>, Error>(None) <==> !h.stored(),
        r matches Ok(Some(b)) ==> b@ == host_bytes(h@) && b@.len() <= 4_194_304,
        r is Err <==> h.stored() && host_bytes(h@).len() > 4_194_304,
        r matches Err(e) ==> e == Error::MessageTooLarge,
{
}

/// An endpoint that joined a host dials that host alone, and admits it alone. A host dials nobody,
/// and admits its members.
pub proof fn law_admission<P>(
    a: &Admission<P>,
    peer: EndpointId,
    c: &Certificate,
    dial: bool,
    r: Result<(), Error>,
    q: &mut Admission<P>,
    now: u64,
)
    requires
        call_ensures(Admission::<P>::can_dial, (a, peer), dial),
        call_ensures(Admission::<P>::check, (a, peer, c), r),
        call_ensures(Admission::<P>::prune, (q, now), ()),
    ensures
        a@ is Host ==> !dial,
        a@ matches AdmissionView::Client(host) ==> (dial <==> host == peer@) && (r is Ok <==> host
            == peer@),
        a@ matches AdmissionView::Host(h) ==> (r is Ok <==> h.members.contains_key(c@.claims.id)
            && h.members[c@.claims.id].claims.subject == peer@),
        r matches Err(e) ==> e == Error::Unauthorized,
        old(q)@ is Client ==> final(q)@ == old(q)@,
        old(q)@ matches AdmissionView::Host(h) ==> final(q)@ == AdmissionView::Host(pruned(h, now)),
{
}

/// Only a host gives out codes, takes them back, or enrolls anyone.
pub proof fn law_only_hosts_enroll<P, M: Meter<P>>(
    a: &mut Admission<P>,
    id: Id,
    r: Result<(), Error>,
    b: &mut Admission<P>,
    peer: EndpointId,
    secret: [u8; 32],
    now: u64,
    host_expires: u64,
    trust: &Trust,
    meter: &mut Ledger<M, AskedView>,
    max_members: usize,
    e: Result<Enrollment, Error>,
)
    requires
        call_ensures(Admission::<P>::revoke_code, (a, id), r),
        call_ensures(
            Admission::<P>::enroll::<M>,
            (b, peer, id, secret, now, host_expires, trust, meter, max_members),
            e,
        ),
    ensures
        old(a)@ is Client ==> r == Err::<(), Error>(Error::Unauthorized) && final(a)@ == old(a)@,
        old(a)@ matches AdmissionView::Host(h) ==> final(a)@ is Host && (r is Ok
            ==> final(a)@->Host_0.codes == h.codes.remove(id@)) && (r is Err ==> final(a)@
            == old(a)@),
        old(b)@ is Client ==> e is Err && e->Err_0 == Error::Unauthorized && final(b)@ == old(b)@,
        e is Ok ==> old(b)@ is Host,
{
}

/// A host that is new has its authority and nobody else.
pub proof fn law_new_host<P>(authority: Authority, a: Admission<P>)
    requires
        call_ensures(Admission::<P>::host, (authority,), a),
    ensures
        a@ == AdmissionView::Host(empty_host(authority@)),
{
}

// Endpoints and trust

/// A new endpoint is as it was made, and goes by the key that it was made with.
pub proof fn law_endpoint_id<H>(o: &Owner<H>, id: EndpointId)
    requires
        call_ensures(Owner::<H>::endpoint_id, (o,), id),
    ensures
        id@ == public_key(o@.secret),
{
}

/// A certificate that is denied is revoked, unless 4096 others are.
pub proof fn law_trust_denies(t: &mut Trust, id: Id, r: Result<(), Error>)
    requires
        call_ensures(Trust::deny_certificate, (t, id), r),
    ensures
        r is Ok <==> old(t)@.revoked.len() < 4096 || old(t)@.revoked.contains(id@),
        r is Ok ==> final(t)@ == (TrustView { revoked: old(t)@.revoked.insert(id@), ..old(t)@ }),
        r matches Err(e) ==> e == Error::QueueFull && final(t)@ == old(t)@,
{
}

/// A list of revoked certificates is taken over as a whole, or not at all.
pub proof fn law_trust_revokes(
    t: &mut Trust,
    snapshot: &RevocationSnapshot,
    now: u64,
    r: Result<(), Error>,
)
    requires
        call_ensures(Trust::apply_revocations, (t, snapshot, now), r),
    ensures
        match trust_apply(old(t)@, snapshot@, now) {
            Ok(w) => r is Ok && final(t)@ == w,
            Err(e) => r == Err::<(), Error>(e) && final(t)@ == old(t)@,
        },
{
}

/// A list of revoked certificates can be made if it has no more than 4096 of them, lasts for some
/// time and has a version.
pub proof fn law_revocations(
    a: &Authority,
    version: u64,
    issued_at: u64,
    expires_at: u64,
    ids: Vec<Id>,
    r: Result<RevocationSnapshot, Error>,
)
    requires
        call_ensures(Authority::revocations, (a, version, issued_at, expires_at, ids), r),
    ensures
        r is Ok <==> id_views(ids@).to_set().len() <= 4096 && issued_at < expires_at && version > 0,
        r is Err ==> r->Err_0 == Error::Config("revocation snapshot"),
{
}

/// What a certificate says is read off it, and keeping it costs four times its bytes and sixteen
/// kilobytes.
pub proof fn law_certificate_is_read(
    c: &Certificate,
    topic: &Topic,
    publish: bool,
    allowed: bool,
    n: usize,
    until: u64,
    limits: CertificateLimits,
    subject: EndpointId,
    id: Id,
)
    requires
        call_ensures(Certificate::allows, (c, topic, publish), allowed),
        call_ensures(Certificate::charge, (c,), n),
        call_ensures(Certificate::expires_at, (c,), until),
        call_ensures(Certificate::limits, (c,), limits),
        call_ensures(Certificate::endpoint_id, (c,), subject),
        call_ensures(Certificate::id, (c,), id),
    ensures
        allowed == claims_allow(c@.claims, topic@, publish),
        n == 4 * c@.bytes.len() + 16384,
        until == c@.claims.expires,
        limits == c@.claims.limits,
        subject@ == c@.claims.subject,
        id@ == c@.claims.id,
{
}

/// A new endpoint is what it was made with, and nothing has happened to it.
pub proof fn law_new_endpoint<H>(
    config: Config,
    identity: Identity,
    cert: Certificate,
    epoch: Id,
    clock: Option<u64>,
    now: u128,
    o: Owner<H>,
)
    requires
        call_ensures(Owner::<H>::new, (config, identity, cert, epoch, clock, now), o),
    ensures
        o@ == fresh_owner::<H>(config@, identity@, cert@, epoch@, clock, now),
        o@.config == config@ && o@.secret == identity@ && o@.cert == cert@ && o@.epoch == epoch@,
        o@.drain is None && !o@.clock_failed,
{
}

/// What was stored of a host is read back, and a host that fails to be founded is none.
pub proof fn law_restore<P>(
    b: Vec<u8>,
    storage: Option<Arc<dyn HostStorage>>,
    now: u64,
    r: Result<Admission<P>, Error>,
    host: Host<P>,
    saved: Result<(), Error>,
    f: Result<Admission<P>, Error>,
)
    requires
        call_ensures(Admission::<P>::restore, (Ok(Some(b)), storage, now), r),
        call_ensures(Admission::<P>::founded, (host, saved), f),
    ensures
        host_of(b@, now) matches Ok(h) ==> r is Ok && r->Ok_0@ == AdmissionView::Host(h),
        host_of(b@, now) matches Err(e) ==> r is Err && r->Err_0 == e,
        saved is Ok <==> f is Ok,
        f matches Ok(a) ==> a@ == AdmissionView::Host(host@),
        saved matches Err(e) ==> f is Err && f->Err_0 == e,
{
}

/// What an endpoint would do is told before it is done.
pub proof fn law_reviews<H>(
    o: &Owner<H>,
    peer: &EndpointId,
    reg: &Session<H>,
    topic: &Topic,
    certificate: &Certificate,
    clock: Option<u64>,
    s: Result<bool, Error>,
    t: Result<(), Error>,
    c: Result<(), Error>,
)
    requires
        call_ensures(Owner::<H>::review_session, (o, peer, reg, clock), s),
        call_ensures(Owner::<H>::review_subscription, (o, topic, clock), t),
        call_ensures(Owner::<H>::review_renewal, (o, certificate, clock), c),
    ensures
        s == session_review(o@, peer@, reg@, clock),
        t == subscription_review(o@, topic@, clock),
        c == renewal_review(o@, certificate@, clock),
{
}

/// What a session and a subscription take is told before they are taken on.
pub proof fn law_charges<H>(
    o: &Owner<H>,
    reg: &Session<H>,
    n: (usize, usize),
    place: usize,
    m: Option<usize>,
)
    requires
        call_ensures(Owner::<H>::session_charge, (o, reg), n),
        call_ensures(Owner::<H>::subscription_charge, (o, place), m),
    ensures
        n.0 == 4 * reg@.cert.bytes.len() + 16384,
        n.1 == reg@.cert.bytes.len() + 4096,
        m matches Some(total) ==> total == 2048 + 128 * o@.config.max_peers
            + o@.config.subscription_messages * place,
        m is None <==> 2048 + 128 * o@.config.max_peers + o@.config.subscription_messages * place
            > usize::MAX,
{
}

/// A new subscription may have as many messages and bytes out as the settings say, and has none
/// out. Those that are gone have nothing out any more; the others have what they had.
pub proof fn law_allowances<H>(o: &Owner<H>, topic: &Topic, a: &mut Allowances, b: &mut Allowances)
    requires
        call_ensures(Owner::<H>::open_allowance, (o, topic, a), ()),
        call_ensures(Owner::<H>::close_allowances, (o, b), ()),
    ensures
        ({
            let x = final(a)@[topic@];
            &&& final(a)@ == old(a)@.insert(topic@, x)
            &&& x.slots.limit == o@.config.subscription_messages as usize
            &&& x.bytes.limit == o@.config.subscription_bytes as usize
            &&& x.slots.used == 0 && x.bytes.used == 0
            &&& x.slots.reservations.dom() == Set::<u64>::empty()
            &&& x.bytes.reservations.dom() == Set::<u64>::empty()
        }),
        forall|t: Seq<char>| #[trigger]
            final(b)@.contains_key(t) <==> old(b)@.contains_key(t) && o@.subscriptions.contains_key(t),
        forall|t: Seq<char>| #[trigger]
            final(b)@.contains_key(t) ==> final(b)@[t] == old(b)@[t],
{
}

/// Whether something waits for a peer's room, and how large the backlog for a peer is.
pub proof fn law_awaits_and_backlog<H>(
    o: &Owner<H>,
    peer: &EndpointId,
    sub: &Id,
    topic: &Topic,
    waits: bool,
    r: Option<(usize, usize)>,
)
    requires
        call_ensures(Owner::<H>::awaits, (o, peer, sub, topic), waits),
        call_ensures(Owner::<H>::backlog, (o, peer), r),
    ensures
        waits <==> exists|k: DeliveryKeyView| #[trigger]
            o@.deliveries.pending.contains_key(k) && k.peer == peer@ && k.sub == sub@ && k.id.topic
                == topic@,
        r matches Some((messages, bytes)) ==> messages == backlog_messages(
            delivery_list(o@.deliveries.pending),
            peer@,
        ) && bytes == backlog_bytes(delivery_list(o@.deliveries.pending), peer@),
        r is None <==> backlog_bytes(delivery_list(o@.deliveries.pending), peer@) > usize::MAX,
{
}

/// A host tells beforehand whether it can give out a code, and what that takes; an authority tells
/// the same of an invitation.
pub proof fn law_codes_and_invitations_are_reviewed<P, Q>(
    h: &Host<P>,
    options: &JoinOptions,
    address: &EndpointAddr,
    now: u64,
    max_codes: usize,
    trial: Id,
    r: Result<usize, Error>,
    s: &EnrollmentService<Q>,
    a: &Authority,
    own: EndpointId,
    terms: &InvitationTerms,
    clock: Option<u64>,
    max: usize,
    i: Result<usize, Error>,
)
    requires
        call_ensures(
            Host::<P>::review_code,
            (h, options, address, now, max_codes, trial),
            r,
        ),
        call_ensures(
            EnrollmentService::<Q>::review_invite,
            (s, a, own, terms, clock, max, trial),
            i,
        ),
    ensures
        code_review(h@, options@, address@, now, max_codes as nat, trial@) matches Ok(n) ==> r is Ok
            && r->Ok_0 == n,
        code_review(h@, options@, address@, now, max_codes as nat, trial@) matches Err(e) ==> r
            == Err::<usize, Error>(e),
        invitation_review(s@, a@, own@, terms@, clock, max as nat, trial@) matches Ok(n) ==> i is Ok
            && i->Ok_0 == n,
        invitation_review(s@, a@, own@, terms@, clock, max as nat, trial@) matches Err(e) ==> i
            == Err::<usize, Error>(e),
{
}

/// A certificate for someone who uses a code is made on the code's terms, and recorded.
pub proof fn law_issue_for_and_record<P>(
    h: &Host<P>,
    peer: EndpointId,
    id: Id,
    now: u64,
    host_expires: u64,
    certificate_id: Id,
    r: Result<Certificate, Error>,
    q: &mut Host<P>,
    c: &Certificate,
    memory: P,
    metering: P,
    previous: Option<Redemption<P>>,
)
    requires
        call_ensures(Host::<P>::issue_for, (h, peer, &id, now, host_expires, certificate_id), r),
        call_ensures(Host::<P>::record, (q, peer, id, c, memory, metering), previous),
    ensures
        certificate_outcome(r) == enrollment_certificate(
            h@,
            peer@,
            id@,
            now,
            host_expires,
            certificate_id@,
        ),
        final(q)@ == peer_admitted(old(q)@, peer@, id@, c@),
        previous is Some <==> old(q)@.codes[id@].redeemed.contains_key(peer@),
        previous matches Some(had) ==> had@ == old(q)@.codes[id@].redeemed[peer@],
{
}

/// Invitations that have expired are forgotten.
pub proof fn law_prune_invitations<P>(s: &mut EnrollmentService<P>, now: u64, id: Seq<u8>)
    requires
        call_ensures(EnrollmentService::<P>::prune, (s, now), ()),
    ensures
        final(s)@.contains_key(id) <==> old(s)@.contains_key(id) && now < old(s)@[id].expires,
        final(s)@.contains_key(id) ==> final(s)@[id] == old(s)@[id],
{
}

/// A call of `redeem` comes to the same as one of `redeem_as`, whatever identifier is drawn.
pub proof fn law_redeem<P>(
    s: &mut EnrollmentService<P>,
    a: &Authority,
    peer: EndpointId,
    id: &Id,
    secret: &[u8; 32],
    now: u64,
    r: Result<Certificate, Error>,
)
    requires
        call_ensures(EnrollmentService::<P>::redeem, (s, a, peer, id, secret, Some(now)), r),
        old(s)@.contains_key(id@) ==> now + old(s)@[id@].valid_for <= u64::MAX,
    ensures
        r matches Ok(c) ==> {
            let i = old(s)@[id@];
            &&& old(s)@.contains_key(id@) && now < i.expires && i.hash == sha256(secret@)
            &&& i.redeemed is None ==> {
                &&& c@.claims.limits == i.limits
                &&& c@.claims.permissions.to_set() == i.permissions.to_set()
                &&& c@.claims.subject == peer@
                &&& c@.claims.not_before == now
                &&& c@.claims.expires == now + i.valid_for
            }
            &&& i.redeemed is Some ==> i.redeemed == Some((peer@, c@))
        },
        r is Err ==> final(s)@ == old(s)@,
{
    let trial = choose|trial: Seq<u8>|
        trial.len() == 16 && (final(s)@, certificate_outcome(r)) == #[trigger] after_redeem(
            old(s)@,
            a@,
            peer@,
            id@,
            secret@,
            Some(now),
            trial,
        );
    law_invitation_brings_its_terms(old(s)@, a@, peer@, id@, secret@, now, trial);
}

/// A call of `issue` makes a certificate on the terms that it was asked for, whatever identifier is
/// drawn.
pub proof fn law_issue(
    a: &Authority,
    subject: EndpointId,
    permissions: Vec<Permission>,
    not_before: u64,
    expires_at: u64,
    limits: CertificateLimits,
    r: Result<Certificate, Error>,
)
    requires
        call_ensures(
            Authority::issue,
            (a, subject, permissions, not_before, expires_at, limits),
            r,
        ),
    ensures
        r matches Ok(c) ==> {
            &&& c@.claims.subject == subject@
            &&& c@.claims.realm == a@.realm
            &&& c@.claims.issuer == public_key(a@.secret)
            &&& c@.claims.not_before == not_before
            &&& c@.claims.expires == expires_at
            &&& c@.claims.limits == limits
            &&& c@.claims.permissions.to_set() == permission_views(permissions@).to_set()
        },
{
    let id = choose|id: Seq<u8>|
        id.len() == 16 && certificate_outcome(r) == #[trigger] issued(
            a@,
            id,
            subject@,
            permission_views(permissions@),
            not_before,
            expires_at,
            limits,
        );
    law_certificate_has_its_terms(
        a@,
        id,
        subject@,
        permission_views(permissions@),
        not_before,
        expires_at,
        limits,
    );
}

// What is written and read

/// A permission to publish, to subscribe, or to do both is that and nothing more.
pub proof fn law_permissions(
    topic: &str,
    p: Result<Permission, Error>,
    s: Result<Permission, Error>,
    b: Result<Permission, Error>,
)
    requires
        call_ensures(Permission::publish, (topic,), p),
        call_ensures(Permission::subscribe, (topic,), s),
        call_ensures(Permission::both, (topic,), b),
    ensures
        p is Ok <==> valid_topic(topic@),
        s is Ok <==> valid_topic(topic@),
        b is Ok <==> valid_topic(topic@),
        p matches Ok(x) ==> x@.topic == topic@ && x@.publish && !x@.subscribe,
        s matches Ok(x) ==> x@.topic == topic@ && !x@.publish && x@.subscribe,
        b matches Ok(x) ==> x@.topic == topic@ && x@.publish && x@.subscribe,
        p matches Err(e) ==> e == Error::InvalidTopic,
{
}

/// An authority goes by its key and its realm, and who trusts it alone knows of no revocation.
pub proof fn law_authority(
    a: &Authority,
    key: EndpointId,
    realm: Id,
    t: Trust,
    tr: &Trust,
    skew: u64,
    root: EndpointId,
)
    requires
        call_ensures(Authority::public_key, (a,), key),
        call_ensures(Authority::realm_id, (a,), realm),
        call_ensures(Authority::trust, (a,), t),
        call_ensures(Trust::clock_skew, (tr,), skew),
        call_ensures(Trust::root, (tr,), root),
    ensures
        key@ == public_key(a@.secret),
        realm@ == a@.realm,
        t@.realm == a@.realm && t@.root == public_key(a@.secret),
        t@.revoked == Set::<Seq<u8>>::empty() && t@.version == 0 && t@.clock_skew_secs == 0,
        skew == tr@.clock_skew_secs,
        root@ == tr@.root,
{
}

/// What a peer says of itself when it opens a session is read as it was said, within the limits.
pub proof fn law_hello_is_read(
    cert: &[u8],
    nonce: Id,
    max_payload: usize,
    max_topics: usize,
    window_secs: u64,
    b: Vec<u8>,
    s: &[u8],
    r: Result<Hello, Error>,
)
    requires
        call_ensures(hello, (cert, nonce, max_payload, max_topics, window_secs), b),
        call_ensures(parse_hello, (s,), r),
        s@ == b@,
        cert@.len() <= 15360,
        1 <= max_payload <= 1_048_576,
        1 <= max_topics <= 256,
        1 <= window_secs <= 300,
    ensures
        r is Ok,
        r->Ok_0@.cert == cert@,
        r->Ok_0@.nonce == nonce@,
        r->Ok_0@.max_payload == max_payload,
        r->Ok_0@.max_topics == max_topics,
        r->Ok_0@.window_secs == window_secs,
{
    law_hello_round_trip(
        HelloView {
            cert: cert@,
            nonce: nonce@,
            max_payload: max_payload as u64,
            max_topics: max_topics as u64,
            window_secs,
        },
    );
}

/// A record that one end writes is what the other reads.
pub proof fn law_record_is_read(
    c: &Control,
    session: Id,
    w: (u8, Vec<u8>),
    s: &[u8],
    r: Result<Control, Error>,
)
    requires
        call_ensures(Control::encode, (c, session), w),
        call_ensures(Control::decode, (w.0, s, session), r),
        s@ == w.1@,
        control_valid(c@),
    ensures
        r is Ok,
        r->Ok_0@ == c@,
{
    law_control_round_trip(c@, session@);
}

/// A request to join, and the answer to it, are read as they were written.
pub proof fn law_joining_is_read(
    id: Id,
    secret: [u8; 32],
    b: Vec<u8>,
    s: &[u8],
    r: Result<(Id, [u8; 32]), Error>,
    outcome: Result<Enrollment, Error>,
    a: (u8, Vec<u8>),
)
    requires
        call_ensures(request, (id, secret), b),
        call_ensures(parse_request, (s,), r),
        s@ == b@,
        call_ensures(reply, (&outcome,), a),
    ensures
        r is Ok,
        r->Ok_0.0@ == id@,
        r->Ok_0.1@ == secret@,
        outcome is Ok <==> a.0 == 2,
        outcome is Err <==> a.0 == 11,
{
    law_request_round_trip(id@, secret@);
}

/// A code names its host and its secret, and goes by the digest of the secret.
pub proof fn law_code_is_told(
    address: EndpointAddr,
    secret: [u8; 32],
    n: JoinCode,
    c: &JoinCode,
    id: Id,
    host: EndpointId,
    s: [u8; 32],
)
    requires
        call_ensures(JoinCode::from_parts, (address, secret), n),
        call_ensures(JoinCode::id, (c,), id),
        call_ensures(JoinCode::host_id, (c,), host),
        call_ensures(JoinCode::secret, (c,), s),
    ensures
        n@.address == address@ && n@.secret == secret@,
        id@ == sha256(encode_utf8("iroh-mq/join-code-id/v3"@) + c@.secret).take(16),
        host@ == c@.address.id,
        s@ == c@.secret,
{
}

/// An endpoint reviews an invitation before it redeems it, asks with its identifier and secret, and
/// takes from the answer only a certificate that is good for itself.
pub proof fn law_invitation_is_redeemed(
    i: &EnrollmentInvite,
    trust: &Trust,
    clock: Option<u64>,
    r: Result<(), Error>,
    b: Vec<u8>,
    kind: u8,
    s: &[u8],
    own: EndpointId,
    c: Result<Certificate, Error>,
)
    requires
        call_ensures(EnrollmentInvite::review, (i, trust, clock), r),
        call_ensures(EnrollmentInvite::request, (i,), b),
        call_ensures(parse_answer, (kind, s, trust, own, clock), c),
    ensures
        r == redeem_review(i@, trust@, clock),
        b@ == redeem_bytes(i@.id, i@.secret),
        certificate_outcome(c) == redeemed_certificate(kind, s@, trust@, own@, clock),
        c matches Ok(x) ==> (clock matches Some(now) && trust_verify(trust@, x@, own@, now) is Ok),
{
}

/// A message that is signed and read is verified for its publisher, and describes its payload
/// alone.
pub proof fn law_envelope(
    b: &[u8],
    peer: EndpointId,
    r: Result<Envelope, Error>,
    e: &Envelope,
    payload: &[u8],
    same: bool,
)
    requires
        call_ensures(Envelope::verify, (b, peer), r),
        call_ensures(Envelope::payload_matches, (e, payload), same),
    ensures
        signed_envelope_of(b@, peer@) matches Ok(x) ==> r is Ok && r->Ok_0@ == x,
        signed_envelope_of(b@, peer@) matches Err(x) ==> r is Err && r->Err_0 == x,
        same <==> e@.len == payload@.len() && e@.digest == sha256(payload@),
{
}

/// A greeting is reviewed, and a session goes by whoever dialed it.
pub proof fn law_greeting(
    trust: &Trust,
    b: &[u8],
    peer: EndpointId,
    clock: Option<u64>,
    g: Result<Greeting, Error>,
    dialing: bool,
    own: EndpointId,
    nonce: Id,
    remote: Id,
    d: (EndpointId, Id),
)
    requires
        call_ensures(review_hello, (trust, b, peer, clock), g),
        call_ensures(session_dialer, (dialing, own, nonce, peer, remote), d),
    ensures
        greeting_of(trust@, b@, peer@, clock) matches Ok(x) ==> g is Ok && g->Ok_0@ == x,
        greeting_of(trust@, b@, peer@, clock) matches Err(e) ==> g is Err && g->Err_0 == e,
        dialing ==> d.0@ == own@ && d.1@ == nonce@,
        !dialing ==> d.0@ == peer@ && d.1@ == remote@,
{
}

// Upkeep as a whole

/// After a call of `maintenance` everything that is left is in order, and nothing is there that was
/// not there before.
pub proof fn law_maintenance<H, F: Fn(&Topic, CreditPermits) -> H>(
    o: &mut Owner<H>,
    clock: Option<u64>,
    now: u128,
    allowances: &mut Allowances,
    metadata: &mut Budget,
    pool: &mut BufferPool,
    attach: F,
)
    requires
        call_ensures(
            Owner::<H>::maintenance::<F>,
            (o, clock, now, allowances, metadata, pool, attach),
            (),
        ),
        old(o)@.peers.dom().finite(),
        old(o)@.records.dom().finite(),
        old(o)@.deliveries.pending.dom().finite(),
    ensures
        in_order(final(o)@, clock, now),
        forall|id: Seq<u8>| #[trigger]
            final(o)@.peers.contains_key(id) ==> old(o)@.peers.contains_key(id),
        forall|k: DeliveryKeyView| #[trigger]
            final(o)@.deliveries.pending.contains_key(k) ==> old(o)@.deliveries.pending.contains_key(
                k,
            ),
        maintained(
            old(o)@,
            final(o)@,
            clock,
            now,
            (FundsView {
                allowances: old(allowances)@,
                metadata: old(metadata)@,
                pool: old(pool)@,
            }),
            (FundsView {
                allowances: final(allowances)@,
                metadata: final(metadata)@,
                pool: final(pool)@,
            }),
            attach,
        ),
{
    law_what_is_left_is_in_order(
        old(o)@,
        final(o)@,
        clock,
        now,
        FundsView { allowances: old(allowances)@, metadata: old(metadata)@, pool: old(pool)@ },
        FundsView { allowances: final(allowances)@, metadata: final(metadata)@, pool: final(pool)@ },
        attach,
    );
}

/// A call of `maintenance` leaves no delivery that can be attempted and whose peer has granted the
/// bytes that it takes.
pub proof fn law_maintenance_sends_what_can_go<H, F: Fn(&Topic, CreditPermits) -> H>(
    o: &mut Owner<H>,
    clock: Option<u64>,
    now: u128,
    allowances: &mut Allowances,
    metadata: &mut Budget,
    pool: &mut BufferPool,
    attach: F,
)
    requires
        call_ensures(
            Owner::<H>::maintenance::<F>,
            (o, clock, now, allowances, metadata, pool, attach),
            (),
        ),
        old(o)@.peers.dom().finite(),
        old(o)@.subscriptions.dom().finite(),
        old(o)@.records.dom().finite(),
        old(o)@.deliveries.pending.dom().finite(),
        now <= 18446744073709551615999999999,
        old(o)@.config.retry_interval <= 18446744073709551615999999999,
    ensures
        forall|k: DeliveryKeyView| #[trigger]
            final(o)@.deliveries.pending.contains_key(k) ==> !(ready(final(o)@, k, clock, now)
                && granted(final(o)@, k)),
{
    law_upkeep_sends_what_can_go(
        old(o)@,
        final(o)@,
        clock,
        now,
        FundsView { allowances: old(allowances)@, metadata: old(metadata)@, pool: old(pool)@ },
        FundsView { allowances: final(allowances)@, metadata: final(metadata)@, pool: final(pool)@ },
        attach,
    );
}

/// A call of `grant_credits` considers everyone who waits, in turn, and tells of each whether room was
/// granted.
pub proof fn law_grant_credits<H, F: Fn(&Topic, CreditPermits) -> H>(
    o: &mut Owner<H>,
    clock: Option<u64>,
    allowances: &mut Allowances,
    metadata: &mut Budget,
    pool: &mut BufferPool,
    attach: F,
    answers: Vec<bool>,
)
    requires
        call_ensures(
            Owner::<H>::grant_credits::<F>,
            (o, clock, allowances, metadata, pool, attach),
            answers,
        ),
    ensures
        answers@.len() == queue(old(o)@, clock).len(),
        exists|funds: Seq<Option<H>>|
            funded(funds) == answers@ && #[trigger] considered_all(
                old(o)@,
                final(o)@,
                clock,
                (FundsView {
                    allowances: old(allowances)@,
                    metadata: old(metadata)@,
                    pool: old(pool)@,
                }),
                (FundsView {
                    allowances: final(allowances)@,
                    metadata: final(metadata)@,
                    pool: final(pool)@,
                }),
                attach,
                funds,
            ),
{
}

/// What a subscription has out is set aside as a whole, and taken back as it comes.
pub proof fn law_allowances_are_used(
    a: &mut Allowances,
    topic: &Topic,
    metadata: &mut Budget,
    pool: &mut BufferPool,
    charge: CreditCharge,
    r: Result<CreditPermits, Error>,
    b: &mut Allowances,
    p: Permit,
)
    requires
        call_ensures(Allowances::set_aside, (a, topic, metadata, pool, charge), r),
        call_ensures(Allowances::give_back, (b, topic, p), ()),
    ensures
        ({
            let f = FundsView { allowances: old(a)@, metadata: old(metadata)@, pool: old(pool)@ };
            let g = FundsView {
                allowances: final(a)@,
                metadata: final(metadata)@,
                pool: final(pool)@,
            };
            &&& g == after_funding(f, topic@, charge)
            &&& r is Ok <==> funding_refusal(f, topic@, charge) is None
            &&& r matches Err(e) ==> funding_refusal(f, topic@, charge) == Some(e)
        }),
        old(b)@.contains_key(topic@) ==> final(b)@ == old(b)@.insert(
            topic@,
            after_return(old(b)@[topic@], p@),
        ),
        !old(b)@.contains_key(topic@) ==> final(b)@ == old(b)@,
{
}

/// A call of `invite` gives out an invitation on the terms that were asked for, or changes nothing.
pub proof fn law_invite<P, M: Meter<P>>(
    s: &mut EnrollmentService<P>,
    a: &Authority,
    own: EndpointId,
    contact: PeerInvite,
    terms: InvitationTerms,
    now: u64,
    max: usize,
    meter: &mut Ledger<M, AskedView>,
    r: Result<EnrollmentInvite, Error>,
)
    requires
        call_ensures(
            EnrollmentService::<P>::invite::<M>,
            (s, a, own, contact, terms, Some(now), max, meter),
            r,
        ),
        now + 86400 <= u64::MAX,
    ensures
        r is Err ==> final(s)@ == old(s)@,
        r matches Ok(i) ==> {
            let kept = final(s)@[i@.id];
            &&& i@.contact == contact@
            &&& i@.expires_at == now + terms@.lifetime / 1_000_000_000
            &&& final(s)@ == old(s)@.insert(i@.id, kept)
            &&& kept.hash == sha256(i@.secret)
            &&& kept.expires == i@.expires_at
            &&& kept.valid_for == terms@.valid_for / 1_000_000_000
            &&& kept.permissions == terms@.permissions
            &&& kept.limits == terms@.limits
            &&& kept.redeemed is None
            &&& old(s)@.dom().len() < max
        },
{
    let (trial, id, secret) = choose|trial: Seq<u8>, id: Seq<u8>, secret: Seq<u8>|
        trial.len() == 16 && (invite_outcome(r) is Ok ==> id.len() == 16 && secret.len() == 32)
            && #[trigger] invited(
            old(s)@,
            final(s)@,
            a@,
            own@,
            contact@,
            terms@,
            Some(now),
            max as nat,
            trial,
            id,
            secret,
            since(old(meter).log(), final(meter).log()),
            invite_outcome(r),
        );
    assert(invited(
        old(s)@,
        final(s)@,
        a@,
        own@,
        contact@,
        terms@,
        Some(now),
        max as nat,
        trial,
        id,
        secret,
        since(old(meter).log(), final(meter).log()),
        invite_outcome(r),
    ));
    if let Ok(i) = r {
        assert(final(s)@ =~= old(s)@.insert(id, final(s)@[id]));
    }
}

/// A code that is added, and an enrollment that is reviewed, come to what they are to.
pub proof fn law_add_code_and_review_enrollment<P>(
    h: &mut Host<P>,
    options: JoinOptions,
    address: &EndpointAddr,
    now: u64,
    memory: P,
    secret: [u8; 32],
    r: Result<JoinCode, Error>,
    q: &mut Host<P>,
    peer: EndpointId,
    id: &Id,
    trust: &Trust,
    max_members: usize,
    e: Result<Option<Enrollment>, Error>,
)
    requires
        call_ensures(Host::<P>::add_code, (h, options, address, now, memory, secret), r),
        call_ensures(
            Host::<P>::review_enrollment,
            (q, peer, id, &secret, now, trust, max_members),
            e,
        ),
    ensures
        r matches Ok(c) ==> c@.secret == secret@ && c@.address.id == address@.id && final(h)@
            == code_added(old(h)@, options@, now, secret@),
        r is Err ==> final(h)@ == old(h)@,
        final(q)@ == members_current(old(q)@, now),
        ({
            let review = enrollment_review(
                old(q)@,
                peer@,
                id@,
                secret@,
                now,
                trust@,
                max_members as nat,
            );
            &&& review matches Err(x) ==> e is Err && e->Err_0 == x
            &&& review matches Ok(None) ==> e is Ok && e->Ok_0 is None
            &&& review matches Ok(Some(x)) ==> e is Ok && e->Ok_0 is Some && e->Ok_0->Some_0@ == x
        }),
{
}

} // verus!
