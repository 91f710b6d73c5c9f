//! What each thing that an endpoint does comes to, piece by piece: what is sent to whom, which
//! entry changes and how, and what stays as it was.
use crate::auth::{claims_allow, trust_check, trust_verify, CertificateView};
use crate::crypto::public_key;
use crate::deliveries::{after_ending, DeliveriesView, DeliveryKeyView, Ending, PendingView};
use crate::endpoint::{ConfigView, RecipientOutcome};
use crate::error::Error;
use crate::message::{DeliveryMode, MessageIdView, Topic};
use crate::octets::bytes_less;
use crate::ordered::{lemma_listing_exists, lemma_pairs_map_index, listing, pairs_map};
use crate::outgoing::cancelled;
use crate::owner::{
    fresh_owner, grace_of, session_review, subscription_review, valid_peer, valid_time,
    with_session, with_subscription, without_peer, OwnerView, PeerView, SessionView,
    SubscriptionView,
};
use crate::wire::ControlView;
use vstd::prelude::*;

verus! {

// Deliveries that end

/// Whether nothing happened to a delivery.
pub open spec fn untouched<H>(d: DeliveriesView<H>, w: DeliveriesView<H>, k: DeliveryKeyView) -> bool {
    &&& w.pending.contains_key(k) == d.pending.contains_key(k)
    &&& d.pending.contains_key(k) ==> w.pending[k] == d.pending[k]
    &&& w.closed.contains_key(k) == d.closed.contains_key(k)
    &&& d.closed.contains_key(k) ==> w.closed[k] == d.closed[k]
    &&& w.ended.contains_key(k) == d.ended.contains_key(k)
    &&& d.ended.contains_key(k) ==> w.ended[k] == d.ended[k]
}

/// Whether a pending delivery ended with `outcome`: it is pending no more, its ending is to be
/// told, and if it was ever attempted it is remembered until `grace` seconds after its message has
/// expired.
pub open spec fn ended_as<H>(
    d: DeliveriesView<H>,
    w: DeliveriesView<H>,
    k: DeliveryKeyView,
    outcome: RecipientOutcome,
    grace: u64,
) -> bool {
    &&& d.pending.contains_key(k) && !w.pending.contains_key(k)
    &&& w.ended.contains_key(k)
    &&& w.ended[k].outcome == outcome
    &&& w.ended[k].held == d.pending[k].held
    &&& d.pending[k].attempts == 0 ==> w.closed.contains_key(k) == d.closed.contains_key(k)
    &&& d.pending[k].attempts == 0 && d.closed.contains_key(k) ==> w.closed[k] == d.closed[k]
    &&& d.pending[k].attempts > 0 ==> {
        &&& w.closed.contains_key(k)
        &&& w.closed[k].memory == d.pending[k].memory
        &&& d.pending[k].envelope.expires + grace <= u64::MAX ==> w.closed[k].expires
            == d.pending[k].envelope.expires + grace
        &&& d.pending[k].envelope.expires + grace > u64::MAX ==> w.closed[k].expires == u64::MAX
    }
}

/// A pending delivery that is said to end ends as it is said to. To every other nothing happens.
pub proof fn law_endings_are_as_decided<H>(
    d: DeliveriesView<H>,
    ending: Ending<H>,
    grace: u64,
    k: DeliveryKeyView,
)
    ensures
        d.pending.contains_key(k) ==> (ending(k, d.pending[k]) matches Some(outcome) ==> ended_as(
            d,
            after_ending(d, ending, grace),
            k,
            outcome,
            grace,
        )),
        !d.pending.contains_key(k) || ending(k, d.pending[k]) is None ==> untouched(
            d,
            after_ending(d, ending, grace),
            k,
        ),
{
}

/// Cancelling a message ends each of its pending deliveries as cancelled, whoever it goes to. A
/// delivery of any other message, be it the next one on the same topic, stays as it is, and nothing
/// else changes.
pub proof fn law_cancelling_ends_one_message<H>(v: OwnerView<H>, id: MessageIdView)
    ensures
        forall|k: DeliveryKeyView| #[trigger]
            v.deliveries.pending.contains_key(k) && k.id == id ==> ended_as(
                v.deliveries,
                cancelled(v, id).deliveries,
                k,
                RecipientOutcome::Cancelled,
                grace_of(v.config),
            ),
        forall|k: DeliveryKeyView|
            #![trigger v.deliveries.pending.contains_key(k)]
            #![trigger cancelled(v, id).deliveries.pending.contains_key(k)]
            k.id != id || !v.deliveries.pending.contains_key(k) ==> untouched(
                v.deliveries,
                cancelled(v, id).deliveries,
                k,
            ),
        cancelled(v, id) == (OwnerView { deliveries: cancelled(v, id).deliveries, ..v }),
{
}

/// An endpoint remembers ended deliveries for as long as a handshake may take, in whole seconds,
/// and for one second at least.
pub proof fn law_grace_is_a_handshake(c: ConfigView)
    requires
        c.handshake_timeout / 1_000_000_000 <= u64::MAX,
    ensures
        grace_of(c) >= 1,
        c.handshake_timeout >= 1_000_000_000 ==> grace_of(c) == c.handshake_timeout / 1_000_000_000,
        c.handshake_timeout < 1_000_000_000 ==> grace_of(c) == 1,
{
}

// Trust in time and peers

/// The time counts only while the clock has not failed and the endpoint's own certificate is good
/// at that time.
pub proof fn law_time_counts_while_certified<H>(v: OwnerView<H>, clock: Option<u64>)
    ensures
        match valid_time(v, clock) {
            Ok(t) => !v.clock_failed && clock == Some(t) && trust_check(
                v.config.trust,
                v.cert.claims,
                public_key(v.secret),
                t,
            ) is Ok,
            Err(e) => if v.clock_failed || clock is None {
                e == Error::Clock
            } else {
                trust_check(v.config.trust, v.cert.claims, public_key(v.secret), clock->Some_0)
                    == Err::<(), Error>(e)
            },
        },
{
}

/// A peer is heard only in the session that it has, and while its certificate is good.
pub proof fn law_peer_is_heard_in_its_session<H>(
    v: OwnerView<H>,
    peer: Seq<u8>,
    session: Seq<u8>,
    clock: Option<u64>,
)
    ensures
        valid_time(v, clock) matches Err(e) ==> valid_peer(v, peer, session, clock) == Err::<
            u64,
            Error,
        >(e),
        valid_time(v, clock) matches Ok(t) ==> {
            let good = trust_check(v.config.trust, v.peers[peer].reg.cert.claims, peer, t);
            &&& !v.peers.contains_key(peer) || v.peers[peer].reg.session != session ==> valid_peer(
                v,
                peer,
                session,
                clock,
            ) == Err::<u64, Error>(Error::PeerUnavailable)
            &&& v.peers.contains_key(peer) && v.peers[peer].reg.session == session ==> (good is Ok
                ==> valid_peer(v, peer, session, clock) == Ok::<u64, Error>(t)) && (good matches Err(
                e,
            ) ==> valid_peer(v, peer, session, clock) == Err::<u64, Error>(e))
        },
{
}

// A new endpoint

/// A new endpoint keeps what it was made with, and otherwise starts with nothing: no peer, no
/// subscription, no delivery, no number used, nothing counted.
pub proof fn law_new_endpoint_has_nothing<H>(
    config: ConfigView,
    secret: Seq<u8>,
    cert: CertificateView,
    epoch: Seq<u8>,
    clock: Option<u64>,
    now: u128,
)
    ensures
        ({
            let v = fresh_owner::<H>(config, secret, cert, epoch, clock, now);
            &&& v.config == config && v.secret == secret && v.cert == cert && v.epoch == epoch
            &&& v.peers.dom() == Set::<Seq<u8>>::empty()
            &&& v.subscriptions.dom() == Set::<Seq<char>>::empty()
            &&& v.deliveries.pending.dom() == Set::<DeliveryKeyView>::empty()
            &&& v.deliveries.closed.dom() == Set::<DeliveryKeyView>::empty()
            &&& v.deliveries.ended.dom() == Set::<DeliveryKeyView>::empty()
            &&& v.records.len() == 0 && v.replies.len() == 0 && v.sequences.len() == 0
            &&& v.writes.len() == 0
            &&& v.drain is None && !v.clock_failed
            &&& v.cursor == 0 && v.attempts == 0 && v.window == now
            &&& clock matches Some(t) ==> v.clock_start == (t, now)
            &&& v.stats.admitted == 0 && v.stats.rejected == 0 && v.stats.processed == 0
            &&& v.stats.retried == 0 && v.stats.expired == 0 && v.stats.authorization_failures == 0
            &&& v.stats.unfinished_on_shutdown == 0
        }),
{
}

// Subscriptions

/// When an endpoint may subscribe, and what stops it: it is certified, it is not shutting down, its
/// certificate lets it subscribe to the topic, it has not done so already, and neither its own
/// limit nor the certificate's, where there is one, is used up.
pub proof fn law_subscribing_needs_permission<H>(
    v: OwnerView<H>,
    topic: Seq<char>,
    clock: Option<u64>,
)
    ensures
        ({
            let n = v.subscriptions.dom().len();
            let most = v.cert.claims.limits.max_subscriptions;
            let r = subscription_review(v, topic, clock);
            &&& r is Ok <==> valid_time(v, clock) is Ok && v.drain is None && claims_allow(
                v.cert.claims,
                topic,
                false,
            ) && !v.subscriptions.contains_key(topic) && n < v.config.max_topics && (most == 0 || n
                < most)
            &&& valid_time(v, clock) matches Err(e) ==> r == Err::<(), Error>(e)
            &&& valid_time(v, clock) is Ok ==> (v.drain is Some <==> r == Err::<(), Error>(
                Error::ShuttingDown,
            ))
            &&& valid_time(v, clock) is Ok && v.drain is None ==> (!claims_allow(
                v.cert.claims,
                topic,
                false,
            ) <==> r == Err::<(), Error>(Error::Unauthorized))
            &&& valid_time(v, clock) is Ok && v.drain is None && claims_allow(
                v.cert.claims,
                topic,
                false,
            ) ==> (v.subscriptions.contains_key(topic) <==> r == Err::<(), Error>(
                Error::AlreadySubscribed,
            )) && (r is Err && !v.subscriptions.contains_key(topic) ==> r == Err::<(), Error>(
                Error::QueueFull,
            ))
        }),
{
}

/// A new subscription is announced to every peer that is connected: after what each was told
/// before, exactly one record, with the topic, the identifier of the subscription and its mode. The
/// subscription starts unconfirmed, with no room granted to anyone, and nothing else changes.
pub proof fn law_subscription_is_announced<H>(
    v: OwnerView<H>,
    topic: Seq<char>,
    id: Seq<u8>,
    mode: DeliveryMode,
    held: H,
)
    ensures
        ({
            let w = with_subscription(v, topic, id, mode, held);
            &&& w.peers.dom() == v.peers.dom()
            &&& forall|p: Seq<u8>| #[trigger]
                v.peers.contains_key(p) ==> {
                    &&& w.peers[p].outbox == v.peers[p].outbox.push(
                        ControlView::Subscribe { topic, sub: id, mode },
                    )
                    &&& w.peers[p] == (PeerView { outbox: w.peers[p].outbox, ..v.peers[p] })
                }
            &&& w.subscriptions.dom() == v.subscriptions.dom().insert(topic)
            &&& forall|t: Seq<char>| #[trigger]
                v.subscriptions.contains_key(t) && t != topic ==> w.subscriptions[t]
                    == v.subscriptions[t]
            &&& w.subscriptions[topic].id == id
            &&& w.subscriptions[topic].mode == mode
            &&& w.subscriptions[topic].held == held
            &&& !w.subscriptions[topic].closed
            &&& w.subscriptions[topic].confirmed == Set::<Seq<u8>>::empty()
            &&& w.subscriptions[topic].grants.len() == 0
            &&& w.subscriptions[topic].demand.len() == 0
            &&& w.subscriptions[topic].ready.len() == 0
            &&& w == (OwnerView { peers: w.peers, subscriptions: w.subscriptions, ..v })
        }),
{
}

// Sessions

/// When a session is taken up, and what stops it: the endpoint is certified and not shutting down,
/// the peer's certificate is good, and there is room for one more peer. Of two sessions with one
/// peer the one with the lesser dialer stays, and with the same dialer the one with the lesser
/// nonce.
pub proof fn law_session_is_taken_up<H>(
    v: OwnerView<H>,
    peer: Seq<u8>,
    reg: SessionView<H>,
    clock: Option<u64>,
)
    ensures
        ({
            let r = session_review(v, peer, reg, clock);
            let had = v.peers[peer].reg;
            match valid_time(v, clock) {
                Err(e) => r == Err::<bool, Error>(e),
                Ok(t) => {
                    let good = trust_verify(v.config.trust, reg.cert, peer, t);
                    &&& v.drain is Some ==> r == Err::<bool, Error>(Error::ShuttingDown)
                    &&& v.drain is None ==> (good matches Err(e) ==> r == Err::<bool, Error>(e))
                    &&& v.drain is None && good is Ok && !v.peers.contains_key(peer) ==> if v.peers.dom().len()
                        < v.config.max_peers {
                        r == Ok::<bool, Error>(true)
                    } else {
                        r == Err::<bool, Error>(Error::QueueFull)
                    }
                    &&& v.drain is None && good is Ok && v.peers.contains_key(peer) ==> r is Ok && (
                    r->Ok_0 <==> bytes_less(reg.dialer, had.dialer) || (reg.dialer == had.dialer
                        && bytes_less(reg.nonce, had.nonce)))
                },
            }
        }),
{
    crate::octets::lemma_bytes_less_irreflexive(reg.dialer);
}

/// When a peer is gone, so is what it was granted, asked for and confirmed. What was on its way to
/// it and may be repeated waits, ready for the next attempt at once; what may not be repeated has
/// failed. Other peers, and what is on its way to them, are as before.
pub proof fn law_peer_that_is_gone<H>(v: OwnerView<H>, peer: Seq<u8>, now: u128)
    ensures
        ({
            let w = without_peer(v, peer, now);
            &&& w.peers.dom() == v.peers.dom().remove(peer)
            &&& forall|p: Seq<u8>| #[trigger]
                v.peers.contains_key(p) && p != peer ==> w.peers[p] == v.peers[p]
            &&& w.subscriptions.dom() == v.subscriptions.dom()
            &&& forall|t: Seq<char>| #[trigger]
                v.subscriptions.contains_key(t) ==> {
                    let s = v.subscriptions[t];
                    let z = w.subscriptions[t];
                    &&& z.confirmed == s.confirmed.remove(peer)
                    &&& z.grants == s.grants.remove(peer)
                    &&& z.demand == s.demand.remove(peer)
                    &&& z.ready == s.ready.remove(peer)
                    &&& z.id == s.id && z.mode == s.mode && z.closed == s.closed && z.held == s.held
                }
            &&& forall|k: DeliveryKeyView| #[trigger]
                v.deliveries.pending.contains_key(k) && k.peer != peer ==> untouched(
                    v.deliveries,
                    w.deliveries,
                    k,
                )
            &&& forall|k: DeliveryKeyView|
                #![trigger w.deliveries.pending.contains_key(k)]
                #![trigger w.deliveries.closed.contains_key(k)]
                #![trigger w.deliveries.ended.contains_key(k)]
                !v.deliveries.pending.contains_key(k) ==> untouched(v.deliveries, w.deliveries, k)
            &&& forall|k: DeliveryKeyView| #[trigger]
                v.deliveries.pending.contains_key(k) && k.peer == peer
                    && v.deliveries.pending[k].envelope.mode == DeliveryMode::BestEffort ==> ended_as(
                    v.deliveries,
                    w.deliveries,
                    k,
                    RecipientOutcome::Failed(Error::PeerUnavailable),
                    grace_of(v.config),
                )
            &&& forall|k: DeliveryKeyView| #[trigger]
                v.deliveries.pending.contains_key(k) && k.peer == peer
                    && v.deliveries.pending[k].envelope.mode != DeliveryMode::BestEffort ==> {
                    &&& w.deliveries.pending.contains_key(k)
                    &&& w.deliveries.pending[k].next == now
                    &&& !w.deliveries.pending[k].writing
                    &&& w.deliveries.pending[k] == (PendingView {
                        next: now,
                        writing: false,
                        ..v.deliveries.pending[k]
                    })
                    &&& w.deliveries.closed.contains_key(k) == v.deliveries.closed.contains_key(k)
                    &&& w.deliveries.ended.contains_key(k) == v.deliveries.ended.contains_key(k)
                }
            &&& w == (OwnerView {
                peers: w.peers,
                subscriptions: w.subscriptions,
                deliveries: w.deliveries,
                ..v
            })
        }),
{
}

/// A peer with a new session is told of every subscription, each once and in the order of the
/// topics, before anything else. What still waits for it goes by its new certificate. It has
/// nothing bound and nothing under way; the other peers are as before.
pub proof fn law_new_session_starts_over<H>(
    v: OwnerView<H>,
    peer: Seq<u8>,
    reg: SessionView<H>,
    now: u128,
)
    requires
        v.subscriptions.dom().finite(),
    ensures
        ({
            let w = with_session(v, peer, reg, now);
            let gone = without_peer(v, peer, now);
            let p = w.peers[peer];
            let all = listing::<Topic, SubscriptionView<H>>(gone.subscriptions);
            &&& w.peers.dom() == v.peers.dom().insert(peer)
            &&& forall|q: Seq<u8>| #[trigger]
                v.peers.contains_key(q) && q != peer ==> w.peers[q] == v.peers[q]
            &&& p.reg == reg && !p.lost
            &&& p.outbound.len() == 0 && p.inbound.len() == 0
            &&& p.outbox.len() == all.len()
            &&& forall|i: int|
                0 <= i < p.outbox.len() ==> #[trigger] p.outbox[i] == (ControlView::Subscribe {
                    topic: all[i].0,
                    sub: v.subscriptions[all[i].0].id,
                    mode: v.subscriptions[all[i].0].mode,
                }) && v.subscriptions.contains_key(all[i].0)
            &&& forall|t: Seq<char>| #[trigger]
                v.subscriptions.contains_key(t) ==> p.outbox.contains(
                    ControlView::Subscribe {
                        topic: t,
                        sub: v.subscriptions[t].id,
                        mode: v.subscriptions[t].mode,
                    },
                )
            &&& w.subscriptions == gone.subscriptions
            &&& w.deliveries.closed == gone.deliveries.closed
            &&& w.deliveries.ended == gone.deliveries.ended
            &&& w.deliveries.pending.dom() == gone.deliveries.pending.dom()
            &&& forall|k: DeliveryKeyView| #[trigger]
                gone.deliveries.pending.contains_key(k) ==> if k.peer == peer {
                    w.deliveries.pending[k] == (PendingView {
                        recipient: reg.cert,
                        ..gone.deliveries.pending[k]
                    })
                } else {
                    w.deliveries.pending[k] == gone.deliveries.pending[k]
                }
            &&& w == (OwnerView {
                peers: w.peers,
                subscriptions: w.subscriptions,
                deliveries: w.deliveries,
                ..v
            })
        }),
{
    let w = with_session(v, peer, reg, now);
    let gone = without_peer(v, peer, now);
    let all = listing::<Topic, SubscriptionView<H>>(gone.subscriptions);
    assert(gone.subscriptions.dom() =~= v.subscriptions.dom());
    lemma_listing_exists::<Topic, SubscriptionView<H>>(gone.subscriptions);
    assert forall|i: int| 0 <= i < all.len() implies gone.subscriptions.contains_key(
        (#[trigger] all[i]).0,
    ) && gone.subscriptions[all[i].0] == all[i].1 by {
        lemma_pairs_map_index::<Topic, SubscriptionView<H>>(all, i);
    }
    assert forall|t: Seq<char>| #[trigger] v.subscriptions.contains_key(t) implies w.peers[peer].outbox.contains(
        ControlView::Subscribe {
            topic: t,
            sub: v.subscriptions[t].id,
            mode: v.subscriptions[t].mode,
        },
    ) by {
        assert(pairs_map(all).contains_key(t));
        let i = choose|i: int| 0 <= i < all.len() && (#[trigger] all[i]).0 == t;
        assert(w.peers[peer].outbox[i] == (ControlView::Subscribe {
            topic: t,
            sub: v.subscriptions[t].id,
            mode: v.subscriptions[t].mode,
        }));
    }
}

} // verus!
