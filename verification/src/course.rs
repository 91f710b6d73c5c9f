//! What happens to an endpoint in the course of its life: how it takes peers and subscriptions on
//! and lets them go, what it gives up as time passes, how its authorization changes, and how it
//! ends.
use crate::allowances::{CreditPermits, FundsView};
use crate::auth::{claims_allow, trust_apply, trust_check, trust_verify, CertificateView, TrustView};
use crate::control::awaited;
use crate::credits::{
    after_queue, considered_all, granted_upto, maintained, queue, scheduled_somehow,
};
use crate::crypto::{public_key, EndpointId};
use crate::deliveries::{
    ending_with, is_expiry, DeliveriesView, DeliveryKeyView, PendingView, RecordKey, RecordKeyView,
};
use crate::effects::{ended_as, untouched};
use crate::endpoint::{ConfigView, Metrics, RecipientOutcome};
use crate::error::Error;
use crate::exchange::{granted, law_nothing_is_left_that_could_go, ready};
use crate::incoming::{after_arrival, arrival, received, TicketView};
use crate::invite::InviteView;
use crate::lifecycle::{
    attempt_accepted, attempt_counted, denied, dial_review, ended, endings_taken, is_drained,
    metrics_of, outbox_taken, renewal, renewed, replies_taken, revoked_by, shut_down, writes_taken,
    MemoryUse,
};
use crate::message::{DeliveryMode, Topic};
use crate::ordered::{lemma_listing_exists, lemma_pairs_map_index, listing, pairs_map};
use crate::outgoing::{delivery_list, scheduled};
use crate::owner::{
    grace_of, registered, session_cost, session_over, session_review, subscribed, subscription_cost,
    subscription_review, valid_time, with_session, without_peer, BindingView, OwnerView, PeerView,
    RecordState, RecordView, ReplyView, SessionView, SubscriptionView,
};
use crate::upkeep::{
    after_clock, after_failures, closed_topics, credits_returned, delivery_error, ending_failed,
    forgotten, is_stale, judged, judged_one, judged_upto, own_error, peer_relieved, record_list,
    relieved, returned, stale_peers, tidied, verdict, with_closed, with_lost, without_closed,
    without_peers, without_stale, without_subscription, without_subscriptions,
};
use crate::wire::ControlView;
use vstd::prelude::*;

verus! {

// Taking on

/// Subscribing succeeds exactly when it is allowed and what it takes could be set aside. Then every
/// peer that is connected is told, after what it was told before, with exactly one record: the
/// topic, the identifier of the subscription and its mode. Otherwise nothing changes.
pub proof fn law_subscribing_tells_every_peer<H>(
    v: OwnerView<H>,
    topic: Seq<char>,
    mode: DeliveryMode,
    id: Seq<u8>,
    reserved: Result<H, Error>,
    clock: Option<u64>,
)
    ensures
        ({
            let (w, r) = subscribed(v, topic, mode, id, reserved, clock);
            let review = subscription_review(v, topic, clock);
            &&& r is Ok <==> review is Ok && reserved is Ok
            &&& review matches Err(e) ==> r == Err::<(), Error>(e)
            &&& review is Ok ==> (reserved matches Err(e) ==> r == Err::<(), Error>(e))
            &&& r is Err ==> w == v
            &&& r is Ok ==> {
                &&& w.peers.dom() == v.peers.dom()
                &&& forall|p: Seq<u8>| #[trigger]
                    v.peers.contains_key(p) ==> w.peers[p].outbox == v.peers[p].outbox.push(
                        ControlView::Subscribe { topic, sub: id, mode },
                    )
                &&& w.subscriptions.contains_key(topic)
                &&& w.subscriptions[topic].id == id
                &&& w.subscriptions[topic].mode == mode
                &&& w.subscriptions[topic].held == reserved->Ok_0
            }
        }),
{
}

/// A session is taken up exactly when it is to be and what it takes could be set aside. Otherwise
/// nothing changes.
pub proof fn law_registering_is_all_or_nothing<H>(
    v: OwnerView<H>,
    peer: Seq<u8>,
    reg: SessionView<H>,
    reserved: Result<(), Error>,
    clock: Option<u64>,
    now: u128,
)
    ensures
        ({
            let (w, r) = registered(v, peer, reg, reserved, clock, now);
            let review = session_review(v, peer, reg, clock);
            &&& r == Ok::<bool, Error>(true) <==> review == Ok::<bool, Error>(true) && reserved is Ok
            &&& r == Ok::<bool, Error>(false) <==> review == Ok::<bool, Error>(false)
            &&& review matches Err(e) ==> r == Err::<bool, Error>(e)
            &&& review == Ok::<bool, Error>(true) ==> (reserved matches Err(e) ==> r == Err::<
                bool,
                Error,
            >(e))
            &&& r == Ok::<bool, Error>(true) ==> w == with_session(v, peer, reg, now)
                && w.peers[peer].reg == reg
            &&& r != Ok::<bool, Error>(true) ==> w == v
        }),
{
}

/// A session takes four times the bytes of its certificate and sixteen kilobytes, and once those
/// bytes and four kilobytes.
pub proof fn law_session_has_its_price<H>(reg: SessionView<H>)
    ensures
        session_cost(reg).0 == 4 * reg.cert.bytes.len() + 16384,
        session_cost(reg).1 == reg.cert.bytes.len() + 4096,
{
}

/// A subscription takes two kilobytes, 128 bytes for every peer that there may be, and a place for
/// every message that may wait.
pub proof fn law_subscription_has_its_price(c: ConfigView, place: nat)
    ensures
        subscription_cost(c, place) == 2048 + 128 * c.max_peers + c.subscription_messages * place,
{
}

// Letting go

/// A session that is over lets its peer go, unless the peer has another one by then.
pub proof fn law_session_that_is_over<H>(
    v: OwnerView<H>,
    peer: Seq<u8>,
    session: Seq<u8>,
    now: u128,
)
    ensures
        v.peers.contains_key(peer) && v.peers[peer].reg.session == session ==> session_over(
            v,
            peer,
            session,
            now,
        ) == without_peer(v, peer, now) && !session_over(v, peer, session, now).peers.contains_key(
            peer,
        ),
        !v.peers.contains_key(peer) || v.peers[peer].reg.session != session ==> session_over(
            v,
            peer,
            session,
            now,
        ) == v,
{
}

/// That a connection is gone, or that the application has let go of a subscription, is noted of
/// that peer or that subscription alone.
pub proof fn law_loss_is_noted<H>(v: OwnerView<H>, peer: Seq<u8>, topic: Seq<char>)
    ensures
        ({
            let w = with_lost(v, peer);
            &&& !v.peers.contains_key(peer) ==> w == v
            &&& v.peers.contains_key(peer) ==> {
                &&& w.peers[peer].lost
                &&& w == (OwnerView {
                    peers: v.peers.insert(peer, PeerView { lost: true, ..v.peers[peer] }),
                    ..v
                })
            }
        }),
        ({
            let w = with_closed(v, topic);
            let s = v.subscriptions[topic];
            &&& !v.subscriptions.contains_key(topic) ==> w == v
            &&& v.subscriptions.contains_key(topic) ==> {
                &&& w.subscriptions[topic].closed
                &&& w == (OwnerView {
                    subscriptions: v.subscriptions.insert(
                        topic,
                        SubscriptionView { closed: true, ..s },
                    ),
                    ..v
                })
            }
        }),
{
}

/// A subscription that is given up is gone. Every peer is told, after what it was told before, with
/// exactly one record: the topic and the identifier of the subscription. Streams for it are over.
/// Other subscriptions are as before.
pub proof fn law_unsubscribing_tells_every_peer<H>(v: OwnerView<H>, topic: Seq<char>)
    ensures
        ({
            let w = without_subscription(v, topic);
            &&& !v.subscriptions.contains_key(topic) ==> w == v
            &&& v.subscriptions.contains_key(topic) ==> {
                &&& w.subscriptions.dom() == v.subscriptions.dom().remove(topic)
                &&& forall|t: Seq<char>| #[trigger]
                    v.subscriptions.contains_key(t) && t != topic ==> w.subscriptions[t]
                        == v.subscriptions[t]
                &&& w.peers.dom() == v.peers.dom()
                &&& forall|p: Seq<u8>| #[trigger]
                    v.peers.contains_key(p) ==> {
                        &&& w.peers[p].outbox == v.peers[p].outbox.push(
                            ControlView::Unsubscribe { topic, sub: v.subscriptions[topic].id },
                        )
                        &&& w.peers[p].inbound == v.peers[p].inbound.remove(topic)
                        &&& w.peers[p].reg == v.peers[p].reg
                        &&& w.peers[p].outbound == v.peers[p].outbound
                        &&& w.peers[p].lost == v.peers[p].lost
                    }
                &&& w == (OwnerView { peers: w.peers, subscriptions: w.subscriptions, ..v })
            }
        }),
{
}

proof fn lemma_given_up<H>(v: OwnerView<H>, topics: Seq<Seq<char>>)
    requires
        topics.no_duplicates(),
        forall|i: int| 0 <= i < topics.len() ==> v.subscriptions.contains_key(#[trigger] topics[i]),
    ensures
        ({
            let w = without_subscriptions(v, topics);
            &&& forall|t: Seq<char>| #[trigger]
                w.subscriptions.contains_key(t) <==> v.subscriptions.contains_key(t)
                    && !topics.contains(t)
            &&& forall|t: Seq<char>| #[trigger]
                w.subscriptions.contains_key(t) ==> w.subscriptions[t] == v.subscriptions[t]
            &&& w.peers.dom() == v.peers.dom()
            &&& forall|p: Seq<u8>| #[trigger]
                v.peers.contains_key(p) ==> w.peers[p].outbox == v.peers[p].outbox + Seq::new(
                    topics.len(),
                    |i: int|
                        ControlView::Unsubscribe {
                            topic: topics[i],
                            sub: v.subscriptions[topics[i]].id,
                        },
                )
            &&& forall|p: Seq<u8>| #[trigger]
                v.peers.contains_key(p) ==> w.peers[p].reg == v.peers[p].reg && w.peers[p].outbound
                    == v.peers[p].outbound && w.peers[p].lost == v.peers[p].lost
            &&& w == (OwnerView { peers: w.peers, subscriptions: w.subscriptions, ..v })
        }),
    decreases topics.len(),
{
    let w = without_subscriptions(v, topics);
    if topics.len() == 0 {
        assert forall|p: Seq<u8>| #[trigger] v.peers.contains_key(p) implies w.peers[p].outbox
            == v.peers[p].outbox + Seq::new(
            topics.len(),
            |i: int|
                ControlView::Unsubscribe {
                    topic: topics[i],
                    sub: v.subscriptions[topics[i]].id,
                },
        ) by {
            assert(v.peers[p].outbox =~= v.peers[p].outbox + Seq::new(
                topics.len(),
                |i: int|
                    ControlView::Unsubscribe {
                        topic: topics[i],
                        sub: v.subscriptions[topics[i]].id,
                    },
            ));
        }
    } else {
        let rest = topics.drop_last();
        let last = topics.last();
        assert forall|i: int| 0 <= i < rest.len() implies v.subscriptions.contains_key(
            #[trigger] rest[i],
        ) by {
            assert(rest[i] == topics[i]);
        }
        lemma_given_up(v, rest);
        let u = without_subscriptions(v, rest);
        assert(v.subscriptions.contains_key(topics[topics.len() - 1]));
        assert(!rest.contains(last)) by {
            if rest.contains(last) {
                let j = choose|j: int| 0 <= j < rest.len() && rest[j] == last;
                assert(topics[j] == topics[topics.len() - 1]);
            }
        }
        assert(u.subscriptions.contains_key(last));
        assert forall|t: Seq<char>| #[trigger] w.subscriptions.contains_key(t) <==> (
        v.subscriptions.contains_key(t) && !topics.contains(t)) by {
            assert(u.subscriptions.contains_key(t) <==> v.subscriptions.contains_key(t)
                && !rest.contains(t));
            if rest.contains(t) {
                let j = choose|j: int| 0 <= j < rest.len() && rest[j] == t;
                assert(topics[j] == t);
            }
            if topics.contains(t) && t != last {
                let j = choose|j: int| 0 <= j < topics.len() && topics[j] == t;
                assert(rest[j] == t);
            }
            assert(topics[topics.len() - 1] == last);
        }
        assert forall|t: Seq<char>| #[trigger]
            w.subscriptions.contains_key(t) implies w.subscriptions[t] == v.subscriptions[t] by {
            assert(u.subscriptions.contains_key(t));
        }
        assert(w.peers.dom() =~= u.peers.dom());
        assert forall|p: Seq<u8>| #[trigger] v.peers.contains_key(p) implies w.peers[p].outbox
            == v.peers[p].outbox + Seq::new(
            topics.len(),
            |i: int|
                ControlView::Unsubscribe {
                    topic: topics[i],
                    sub: v.subscriptions[topics[i]].id,
                },
        ) by {
            assert(u.peers.dom().contains(p));
            assert(u.peers.contains_key(p));
            assert(w.peers[p].outbox =~= v.peers[p].outbox + Seq::new(
                topics.len(),
                |i: int|
                    ControlView::Unsubscribe {
                        topic: topics[i],
                        sub: v.subscriptions[topics[i]].id,
                    },
            ));
        }
    }
}

proof fn lemma_closed_topics<H>(s: Seq<(Seq<char>, SubscriptionView<H>)>)
    requires
        forall|i: int, j: int| 0 <= i < j < s.len() ==> (#[trigger] s[i]).0 != (#[trigger] s[j]).0,
    ensures
        closed_topics(s).no_duplicates(),
        forall|t: Seq<char>| #[trigger]
            closed_topics(s).contains(t) <==> exists|i: int|
                0 <= i < s.len() && (#[trigger] s[i]).0 == t && s[i].1.closed,
    decreases s.len(),
{
    if s.len() > 0 {
        let rest = s.drop_last();
        assert forall|i: int, j: int| 0 <= i < j < rest.len() implies (#[trigger] rest[i]).0 != (
        #[trigger] rest[j]).0 by {
            assert(s[i].0 != s[j].0);
        }
        lemma_closed_topics(rest);
        let before = closed_topics(rest);
        let all = closed_topics(s);
        assert forall|t: Seq<char>| #[trigger] all.contains(t) <==> exists|i: int|
            0 <= i < s.len() && (#[trigger] s[i]).0 == t && s[i].1.closed by {
            if all.contains(t) {
                let k = choose|k: int| 0 <= k < all.len() && all[k] == t;
                if k < before.len() {
                    assert(before[k] == t);
                    assert(before.contains(t));
                    let i = choose|i: int|
                        0 <= i < rest.len() && (#[trigger] rest[i]).0 == t && rest[i].1.closed;
                    assert(s[i].0 == t && s[i].1.closed);
                } else {
                    assert(s[s.len() - 1].0 == t && s[s.len() - 1].1.closed);
                }
            }
            if exists|i: int| 0 <= i < s.len() && (#[trigger] s[i]).0 == t && s[i].1.closed {
                let i = choose|i: int| 0 <= i < s.len() && (#[trigger] s[i]).0 == t && s[i].1.closed;
                if i < rest.len() {
                    assert(rest[i].0 == t && rest[i].1.closed);
                    assert(before.contains(t));
                    let k = choose|k: int| 0 <= k < before.len() && before[k] == t;
                    assert(all[k] == t);
                } else {
                    assert(all[all.len() - 1] == t);
                }
            }
        }
        if s.last().1.closed {
            assert forall|i: int, j: int| 0 <= i < j < all.len() implies all[i] != all[j] by {
                if j == before.len() {
                    assert(before.contains(before[i]));
                    let l = choose|l: int|
                        0 <= l < rest.len() && (#[trigger] rest[l]).0 == before[i]
                            && rest[l].1.closed;
                    assert(s[l].0 != s[s.len() - 1].0);
                } else {
                    assert(before[i] != before[j]);
                }
            }
        }
    }
}

/// The subscriptions that the application has let go of are given up, and no others, and every peer
/// is told of each of them, once.
pub proof fn law_what_is_let_go_is_given_up<H>(v: OwnerView<H>)
    requires
        v.subscriptions.dom().finite(),
    ensures
        ({
            let w = without_closed(v);
            &&& forall|t: Seq<char>| #[trigger]
                w.subscriptions.contains_key(t) <==> v.subscriptions.contains_key(t)
                    && !v.subscriptions[t].closed
            &&& forall|t: Seq<char>| #[trigger]
                w.subscriptions.contains_key(t) ==> w.subscriptions[t] == v.subscriptions[t]
            &&& w.peers.dom() == v.peers.dom()
            &&& exists|topics: Seq<Seq<char>>| #[trigger]
                topics.no_duplicates() && (forall|t: Seq<char>| #[trigger]
                    topics.contains(t) <==> v.subscriptions.contains_key(t)
                        && v.subscriptions[t].closed) && (forall|p: Seq<u8>| #[trigger]
                    v.peers.contains_key(p) ==> w.peers[p].outbox == v.peers[p].outbox + Seq::new(
                        topics.len(),
                        |i: int|
                            ControlView::Unsubscribe {
                                topic: topics[i],
                                sub: v.subscriptions[topics[i]].id,
                            },
                    ))
            &&& forall|p: Seq<u8>| #[trigger]
                v.peers.contains_key(p) ==> w.peers[p].reg == v.peers[p].reg && w.peers[p].outbound
                    == v.peers[p].outbound && w.peers[p].lost == v.peers[p].lost
            &&& w == (OwnerView { peers: w.peers, subscriptions: w.subscriptions, ..v })
        }),
{
    let s = listing::<Topic, SubscriptionView<H>>(v.subscriptions);
    lemma_listing_exists::<Topic, SubscriptionView<H>>(v.subscriptions);
    assert forall|i: int| 0 <= i < s.len() implies v.subscriptions.contains_key(
        (#[trigger] s[i]).0,
    ) && v.subscriptions[s[i].0] == s[i].1 by {
        lemma_pairs_map_index::<Topic, SubscriptionView<H>>(s, i);
    }
    assert forall|i: int, j: int| 0 <= i < j < s.len() implies (#[trigger] s[i]).0 != (
    #[trigger] s[j]).0 by {
        assert(<Topic as crate::ordered::Key>::less(s[i].0, s[j].0));
        <Topic as crate::ordered::Key>::less_irreflexive(s[i].0);
    }
    lemma_closed_topics(s);
    let topics = closed_topics(s);
    assert forall|t: Seq<char>| #[trigger] topics.contains(t) <==> v.subscriptions.contains_key(t)
        && v.subscriptions[t].closed by {
        if v.subscriptions.contains_key(t) && v.subscriptions[t].closed {
            assert(pairs_map(s).contains_key(t));
            let i = choose|i: int| 0 <= i < s.len() && (#[trigger] s[i]).0 == t;
            assert(s[i].1.closed);
        }
    }
    assert forall|i: int| 0 <= i < topics.len() implies v.subscriptions.contains_key(
        #[trigger] topics[i],
    ) by {
        assert(topics.contains(topics[i]));
    }
    lemma_given_up(v, topics);
    assert(topics.no_duplicates());
}

// As time passes

/// A clock that once failed stays failed. It fails when it gives no time, or one that is more than
/// thirty seconds away from what the time since the start makes of the first.
pub proof fn law_clock_is_watched<H>(v: OwnerView<H>, clock: Option<u64>, now: u128)
    requires
        v.clock_start.1 <= now,
        v.clock_start.0 + (now - v.clock_start.1) / 1_000_000_000 <= u64::MAX,
    ensures
        ({
            let w = after_clock(v, clock, now);
            let expected = v.clock_start.0 + (now - v.clock_start.1) / 1_000_000_000;
            &&& v.clock_failed ==> w.clock_failed
            &&& !v.clock_failed ==> (w.clock_failed <==> !(clock matches Some(t) && expected - 30
                <= t <= expected + 30))
            &&& w == (OwnerView { clock_failed: w.clock_failed, ..v })
        }),
{
}

/// A peer is to be let go exactly when the endpoint itself may not act, the peer's certificate is
/// no longer good, or its connection is gone.
pub proof fn law_peer_is_kept_while_good<H>(
    v: OwnerView<H>,
    id: Seq<u8>,
    p: PeerView<H>,
    clock: Option<u64>,
)
    ensures
        !is_stale(v, id, p, clock) <==> !p.lost && (valid_time(v, clock) matches Ok(t)
            && trust_check(v.config.trust, p.reg.cert.claims, id, t) is Ok),
{
}

proof fn lemma_stale_peers<H>(v: OwnerView<H>, s: Seq<(Seq<u8>, PeerView<H>)>, clock: Option<u64>)
    ensures
        forall|id: Seq<u8>| #[trigger]
            stale_peers(v, s, clock).contains(id) <==> exists|i: int|
                0 <= i < s.len() && (#[trigger] s[i]).0 == id && is_stale(v, id, s[i].1, clock),
    decreases s.len(),
{
    if s.len() > 0 {
        let rest = s.drop_last();
        lemma_stale_peers(v, rest, clock);
        let before = stale_peers(v, rest, clock);
        let all = stale_peers(v, s, clock);
        assert forall|id: Seq<u8>| #[trigger] all.contains(id) <==> exists|i: int|
            0 <= i < s.len() && (#[trigger] s[i]).0 == id && is_stale(v, id, s[i].1, clock) by {
            if all.contains(id) {
                let k = choose|k: int| 0 <= k < all.len() && all[k] == id;
                if k < before.len() {
                    assert(before[k] == id);
                    assert(before.contains(id));
                    let i = choose|i: int|
                        0 <= i < rest.len() && (#[trigger] rest[i]).0 == id && is_stale(
                            v,
                            id,
                            rest[i].1,
                            clock,
                        );
                    assert(s[i].0 == id && is_stale(v, id, s[i].1, clock));
                } else {
                    assert(s[s.len() - 1].0 == id);
                }
            }
            if exists|i: int|
                0 <= i < s.len() && (#[trigger] s[i]).0 == id && is_stale(v, id, s[i].1, clock) {
                let i = choose|i: int|
                    0 <= i < s.len() && (#[trigger] s[i]).0 == id && is_stale(v, id, s[i].1, clock);
                if i < rest.len() {
                    assert(rest[i].0 == id && is_stale(v, id, rest[i].1, clock));
                    assert(before.contains(id));
                    let k = choose|k: int| 0 <= k < before.len() && before[k] == id;
                    assert(all[k] == id);
                } else {
                    assert(all[all.len() - 1] == id);
                }
            }
        }
    }
}

proof fn lemma_peers_left<H>(v: OwnerView<H>, ids: Seq<Seq<u8>>, now: u128)
    ensures
        ({
            let w = without_peers(v, ids, now);
            &&& forall|id: Seq<u8>| #[trigger]
                w.peers.contains_key(id) <==> v.peers.contains_key(id) && !ids.contains(id)
            &&& forall|id: Seq<u8>| #[trigger]
                w.peers.contains_key(id) ==> w.peers[id] == v.peers[id]
        }),
    decreases ids.len(),
{
    if ids.len() > 0 {
        let rest = ids.drop_last();
        lemma_peers_left(v, rest, now);
        let u = without_peers(v, rest, now);
        let w = without_peers(v, ids, now);
        assert forall|id: Seq<u8>| #[trigger] w.peers.contains_key(id) <==> v.peers.contains_key(id)
            && !ids.contains(id) by {
            assert(u.peers.contains_key(id) <==> v.peers.contains_key(id) && !rest.contains(id));
            if rest.contains(id) {
                let j = choose|j: int| 0 <= j < rest.len() && rest[j] == id;
                assert(ids[j] == id);
            }
            if ids.contains(id) && id != ids.last() {
                let j = choose|j: int| 0 <= j < ids.len() && ids[j] == id;
                assert(rest[j] == id);
            }
            assert(ids[ids.len() - 1] == ids.last());
        }
        assert forall|id: Seq<u8>| #[trigger] w.peers.contains_key(id) implies w.peers[id]
            == v.peers[id] by {
            assert(u.peers.contains_key(id));
        }
    }
}

/// Letting go of the peers that are to be let go leaves exactly the others, as they were.
pub proof fn law_good_peers_stay<H>(v: OwnerView<H>, clock: Option<u64>, now: u128)
    requires
        v.peers.dom().finite(),
    ensures
        ({
            let w = without_stale(v, clock, now);
            &&& forall|id: Seq<u8>| #[trigger]
                w.peers.contains_key(id) <==> v.peers.contains_key(id) && !is_stale(
                    v,
                    id,
                    v.peers[id],
                    clock,
                )
            &&& forall|id: Seq<u8>| #[trigger]
                w.peers.contains_key(id) ==> w.peers[id] == v.peers[id]
        }),
{
    let s = listing::<EndpointId, PeerView<H>>(v.peers);
    lemma_listing_exists::<EndpointId, PeerView<H>>(v.peers);
    let ids = stale_peers(v, s, clock);
    lemma_stale_peers(v, s, clock);
    lemma_peers_left(v, ids, now);
    assert forall|id: Seq<u8>| v.peers.contains_key(id) implies (#[trigger] ids.contains(id)
        <==> is_stale(v, id, v.peers[id], clock)) by {
        assert(pairs_map(s).contains_key(id));
        let i = choose|i: int| 0 <= i < s.len() && (#[trigger] s[i]).0 == id;
        lemma_pairs_map_index::<EndpointId, PeerView<H>>(s, i);
        if ids.contains(id) {
            let j = choose|j: int|
                0 <= j < s.len() && (#[trigger] s[j]).0 == id && is_stale(v, id, s[j].1, clock);
            lemma_pairs_map_index::<EndpointId, PeerView<H>>(s, j);
        }
    }
    assert forall|id: Seq<u8>| #[trigger]
        without_stale(v, clock, now).peers.contains_key(id) <==> v.peers.contains_key(id)
        && !is_stale(v, id, v.peers[id], clock) by {
        assert(ids.contains(id) || !ids.contains(id));
    }
}

/// What becomes of a message that is being processed: when the endpoint may no longer act, or the
/// message has expired, its handler is told so and it counts as refused for good. Otherwise it
/// comes to what its handler said of it, and that is told to its publisher as zero, one or two.
pub proof fn law_verdict_on_a_message<H>(r: RecordView<H>, t: u64, error: Option<Error>)
    ensures
        ({
            let x = verdict(r, t, error);
            &&& !(r.state is Processing) ==> x is None
            &&& r.state matches RecordState::Processing(said) ==> {
                &&& error matches Some(e) ==> x == Some(
                    (RecordState::Permanent, Err::<(), Error>(e), None::<u64>),
                )
                &&& error is None && t >= r.expires ==> x == Some(
                    (RecordState::Permanent, Err::<(), Error>(Error::DeliveryExpired), None::<u64>),
                )
                &&& error is None && t < r.expires ==> {
                    &&& said is Open ==> x is None
                    &&& said is Processed ==> x == Some(
                        (RecordState::Processed, Ok::<(), Error>(()), Some(0u64)),
                    )
                    &&& said is Retryable ==> x == Some(
                        (RecordState::Retryable, Ok::<(), Error>(()), Some(1u64)),
                    )
                    &&& said is Permanent ==> x == Some(
                        (RecordState::Permanent, Ok::<(), Error>(()), Some(2u64)),
                    )
                }
            }
        }),
{
}

/// A verdict is noted of its message, its handler is answered, and the publisher is told with one
/// record after what it was told before, if there is something to tell and it is connected.
pub proof fn law_verdict_is_carried_out<H>(
    v: OwnerView<H>,
    key: RecordKeyView,
    t: u64,
    error: Option<Error>,
)
    requires
        v.records.contains_key(key),
    ensures
        ({
            let w = judged_one(v, key, t, error);
            let publisher = key.id.publisher_endpoint_id;
            let p = v.peers[publisher];
            &&& verdict(v.records[key], t, error) is None ==> w == v
            &&& verdict(v.records[key], t, error) matches Some((state, reply, code)) ==> {
                &&& w.records.dom() == v.records.dom()
                &&& forall|k: RecordKeyView| #[trigger]
                    v.records.contains_key(k) && k != key ==> w.records[k] == v.records[k]
                &&& w.records[key].state == state
                &&& w.records[key].waiter is None
                &&& w.records[key].fingerprint == v.records[key].fingerprint
                &&& w.records[key].expires == v.records[key].expires
                &&& w.records[key].memory == v.records[key].memory
                &&& w.replies == v.replies.insert(
                    key,
                    ReplyView { result: reply, waiter: v.records[key].waiter },
                )
                &&& code is None || !v.peers.contains_key(publisher) ==> w.peers == v.peers
                &&& v.peers.contains_key(publisher) ==> (code matches Some(code) ==> w.peers
                    == v.peers.insert(
                    publisher,
                    PeerView {
                        outbox: p.outbox.push(
                            ControlView::Outcome {
                                topic: key.id.topic,
                                sub: key.sub,
                                epoch: key.id.publisher_epoch,
                                sequence: key.id.sequence,
                                code,
                            },
                        ),
                        ..p
                    },
                ))
                &&& w == (OwnerView {
                    records: w.records,
                    replies: w.replies,
                    peers: w.peers,
                    ..v
                })
            }
        }),
{
}

/// What is remembered of messages and of deliveries that have ended is forgotten once its time is
/// over, and not before.
pub proof fn law_memory_has_its_time<H>(
    v: OwnerView<H>,
    t: u64,
    key: RecordKeyView,
    k: DeliveryKeyView,
)
    ensures
        ({
            let w = forgotten(v, t);
            &&& w.records.contains_key(key) <==> v.records.contains_key(key) && t
                < v.records[key].expires
            &&& w.records.contains_key(key) ==> w.records[key] == v.records[key]
            &&& w.deliveries.closed.contains_key(k) <==> v.deliveries.closed.contains_key(k) && t
                < v.deliveries.closed[k].expires
            &&& w.deliveries.closed.contains_key(k) ==> w.deliveries.closed[k]
                == v.deliveries.closed[k]
            &&& w.deliveries.pending == v.deliveries.pending
            &&& w.deliveries.ended == v.deliveries.ended
            &&& w == (OwnerView { records: w.records, deliveries: w.deliveries, ..v })
        }),
{
}

/// A delivery goes on exactly while the endpoint may act and may publish to the topic, neither the
/// delivery nor its message has run out of time, its recipient's certificate is good and lets it
/// subscribe, and, if the recipient is connected, its present certificate does too and its binding,
/// if it has one, is still the one that the delivery goes to. Otherwise it fails, for the first of
/// these that does not hold.
pub proof fn law_delivery_goes_on_while_allowed<H>(
    v: OwnerView<H>,
    k: DeliveryKeyView,
    p: PendingView<H>,
    error: Option<Error>,
    t: u64,
    now: u128,
)
    ensures
        ({
            let r = delivery_error(v, k, p, error, t, now);
            let topic = k.id.topic;
            let may = claims_allow(v.cert.claims, topic, true);
            let timely = now < p.deadline && t < p.envelope.expires;
            let good = trust_check(v.config.trust, p.recipient.claims, k.peer, t);
            let wants = claims_allow(p.recipient.claims, topic, false);
            let peer = v.peers[k.peer];
            let there = v.peers.contains_key(k.peer);
            let still = there ==> claims_allow(peer.reg.cert.claims, topic, false);
            let b = peer.outbound[topic];
            let other = there && peer.outbound.contains_key(topic) && (b.sub != k.sub || b.mode
                != p.envelope.mode);
            &&& r is None <==> error is None && may && timely && good is Ok && wants && still
                && !other
            &&& error is Some ==> r == error
            &&& error is None && !may ==> r == Some(Error::Unauthorized)
            &&& error is None && may && !timely ==> r == Some(Error::DeliveryExpired)
            &&& error is None && may && timely ==> (good matches Err(e) ==> r == Some(e))
            &&& error is None && may && timely && good is Ok && !(wants && still) ==> r == Some(
                Error::Unauthorized,
            )
            &&& error is None && may && timely && good is Ok && wants && still && other ==> r
                == Some(Error::SubscriptionClosed)
        }),
{
}

/// Every delivery that is to fail has failed, and every other is as before. Those that ran out of
/// time are counted.
pub proof fn law_failed_deliveries_end<H>(
    v: OwnerView<H>,
    error: Option<Error>,
    t: u64,
    now: u128,
)
    ensures
        ({
            let w = after_failures(v, error, t, now);
            let late = v.deliveries.pending.dom().filter(
                |k: DeliveryKeyView|
                    delivery_error(v, k, v.deliveries.pending[k], error, t, now) == Some(
                        Error::DeliveryExpired,
                    ),
            );
            &&& forall|k: DeliveryKeyView| #[trigger]
                v.deliveries.pending.contains_key(k) ==> match delivery_error(
                    v,
                    k,
                    v.deliveries.pending[k],
                    error,
                    t,
                    now,
                ) {
                    Some(e) => ended_as(
                        v.deliveries,
                        w.deliveries,
                        k,
                        RecipientOutcome::Failed(e),
                        grace_of(v.config),
                    ),
                    None => untouched(v.deliveries, w.deliveries, k),
                }
            &&& forall|k: DeliveryKeyView|
                #![trigger w.deliveries.pending.contains_key(k)]
                #![trigger w.deliveries.closed.contains_key(k)]
                #![trigger w.deliveries.ended.contains_key(k)]
                !v.deliveries.pending.contains_key(k) ==> untouched(v.deliveries, w.deliveries, k)
            &&& v.stats.expired + late.len() <= u64::MAX ==> w.stats.expired == v.stats.expired
                + late.len()
            &&& w.stats == (Metrics { expired: w.stats.expired, ..v.stats })
            &&& w == (OwnerView { deliveries: w.deliveries, stats: w.stats, ..v })
        }),
{
    let late = v.deliveries.pending.dom().filter(
        |k: DeliveryKeyView|
            delivery_error(v, k, v.deliveries.pending[k], error, t, now) == Some(
                Error::DeliveryExpired,
            ),
    );
    assert(ending_with(v.deliveries, ending_failed(v, error, t, now), is_expiry()) =~= late);
}

/// Whether room that a peer granted for a topic has nothing left to be used for.
pub open spec fn idle<H>(v: OwnerView<H>, peer: Seq<u8>, topic: Seq<char>) -> bool {
    let b = v.peers[peer].outbound[topic];
    &&& b.credit is Some
    &&& forall|k: DeliveryKeyView| #[trigger]
        v.deliveries.pending.contains_key(k) ==> k.peer != peer || k.sub != b.sub || k.id.topic
            != topic
}

proof fn lemma_returned<H>(
    v: OwnerView<H>,
    s: Seq<(Seq<char>, BindingView<H>)>,
    peer: Seq<u8>,
)
    requires
        forall|i: int|
            0 <= i < s.len() ==> v.peers[peer].outbound.contains_key((#[trigger] s[i]).0)
                && v.peers[peer].outbound[s[i].0] == s[i].1,
    ensures
        forall|c: ControlView| #[trigger]
            returned(s, v.deliveries.pending, peer).contains(c) <==> exists|i: int|
                0 <= i < s.len() && idle(v, peer, (#[trigger] s[i]).0) && c
                    == (ControlView::RequestCredit { topic: s[i].0, sub: s[i].1.sub, bytes: 0 }),
    decreases s.len(),
{
    if s.len() > 0 {
        let rest = s.drop_last();
        assert forall|i: int| 0 <= i < rest.len() implies v.peers[peer].outbound.contains_key(
            (#[trigger] rest[i]).0,
        ) && v.peers[peer].outbound[rest[i].0] == rest[i].1 by {
            assert(rest[i] == s[i]);
        }
        lemma_returned(v, rest, peer);
        let before = returned(rest, v.deliveries.pending, peer);
        let all = returned(s, v.deliveries.pending, peer);
        let (topic, b) = s.last();
        assert(s[s.len() - 1] == s.last());
        assert(idle(v, peer, topic) <==> b.credit is Some && !crate::control::awaited(
            v.deliveries.pending,
            peer,
            b.sub,
            topic,
        ));
        assert forall|c: ControlView| #[trigger] all.contains(c) <==> exists|i: int|
            0 <= i < s.len() && idle(v, peer, (#[trigger] s[i]).0) && c
                == (ControlView::RequestCredit { topic: s[i].0, sub: s[i].1.sub, bytes: 0 }) by {
            if all.contains(c) {
                let k = choose|k: int| 0 <= k < all.len() && all[k] == c;
                if k < before.len() {
                    assert(before[k] == c);
                    assert(before.contains(c));
                    let i = choose|i: int|
                        0 <= i < rest.len() && idle(v, peer, (#[trigger] rest[i]).0) && c == (
                        ControlView::RequestCredit {
                            topic: rest[i].0,
                            sub: rest[i].1.sub,
                            bytes: 0,
                        });
                    assert(s[i] == rest[i]);
                }
            }
            if exists|i: int|
                0 <= i < s.len() && idle(v, peer, (#[trigger] s[i]).0) && c == (
                ControlView::RequestCredit { topic: s[i].0, sub: s[i].1.sub, bytes: 0 }) {
                let i = choose|i: int|
                    0 <= i < s.len() && idle(v, peer, (#[trigger] s[i]).0) && c == (
                    ControlView::RequestCredit { topic: s[i].0, sub: s[i].1.sub, bytes: 0 });
                if i < rest.len() {
                    assert(rest[i] == s[i]);
                    assert(before.contains(c));
                    let k = choose|k: int| 0 <= k < before.len() && before[k] == c;
                    assert(all[k] == c);
                } else {
                    assert(all[all.len() - 1] == c);
                }
            }
        }
    }
}

/// Room that peers granted and that nothing waits to use is given back: the peer is told, after
/// what it was told before, of each topic on which that is so, and of nothing else. Other bindings
/// are as before.
pub proof fn law_idle_room_is_given_back<H>(v: OwnerView<H>, peer: Seq<u8>)
    requires
        v.peers.contains_key(peer),
        v.peers[peer].outbound.dom().finite(),
    ensures
        ({
            let w = credits_returned(v);
            let p = v.peers[peer];
            let q = w.peers[peer];
            let more = q.outbox.skip(p.outbox.len() as int);
            &&& w.peers.dom() == v.peers.dom()
            &&& q.outbox.len() >= p.outbox.len() && q.outbox.take(p.outbox.len() as int) == p.outbox
            &&& forall|c: ControlView| #[trigger]
                more.contains(c) <==> exists|topic: Seq<char>| #[trigger]
                    p.outbound.contains_key(topic) && idle(v, peer, topic) && c
                        == (ControlView::RequestCredit {
                        topic,
                        sub: p.outbound[topic].sub,
                        bytes: 0,
                    })
            &&& q.outbound.dom() == p.outbound.dom()
            &&& forall|topic: Seq<char>| #[trigger]
                p.outbound.contains_key(topic) ==> if idle(v, peer, topic) {
                    q.outbound[topic] == (BindingView { credit: None, ..p.outbound[topic] })
                } else {
                    q.outbound[topic] == p.outbound[topic]
                }
            &&& q == (PeerView { outbox: q.outbox, outbound: q.outbound, ..p })
            &&& w == (OwnerView { peers: w.peers, ..v })
        }),
{
    let w = credits_returned(v);
    let p = v.peers[peer];
    let q = w.peers[peer];
    let s = listing::<Topic, BindingView<H>>(p.outbound);
    lemma_listing_exists::<Topic, BindingView<H>>(p.outbound);
    assert forall|i: int| 0 <= i < s.len() implies p.outbound.contains_key((#[trigger] s[i]).0)
        && p.outbound[s[i].0] == s[i].1 by {
        lemma_pairs_map_index::<Topic, BindingView<H>>(s, i);
    }
    lemma_returned(v, s, peer);
    let told = returned(s, v.deliveries.pending, peer);
    let more = q.outbox.skip(p.outbox.len() as int);
    assert(more =~= told);
    assert(q.outbox.take(p.outbox.len() as int) =~= p.outbox);
    assert forall|c: ControlView| #[trigger] more.contains(c) <==> exists|topic: Seq<char>| #[trigger]
        p.outbound.contains_key(topic) && idle(v, peer, topic) && c == (ControlView::RequestCredit {
            topic,
            sub: p.outbound[topic].sub,
            bytes: 0,
        }) by {
        if more.contains(c) {
            assert(told.contains(c));
            let i = choose|i: int|
                0 <= i < s.len() && idle(v, peer, (#[trigger] s[i]).0) && c == (
                ControlView::RequestCredit { topic: s[i].0, sub: s[i].1.sub, bytes: 0 });
            assert(p.outbound.contains_key(s[i].0));
        }
        if exists|topic: Seq<char>| #[trigger]
            p.outbound.contains_key(topic) && idle(v, peer, topic) && c
                == (ControlView::RequestCredit {
                topic,
                sub: p.outbound[topic].sub,
                bytes: 0,
            }) {
            let topic = choose|topic: Seq<char>| #[trigger]
                p.outbound.contains_key(topic) && idle(v, peer, topic) && c
                    == (ControlView::RequestCredit {
                    topic,
                    sub: p.outbound[topic].sub,
                    bytes: 0,
                });
            assert(pairs_map(s).contains_key(topic));
            let i = choose|i: int| 0 <= i < s.len() && (#[trigger] s[i]).0 == topic;
            assert(told.contains(c));
        }
    }
    assert forall|topic: Seq<char>| #[trigger] p.outbound.contains_key(topic) implies if idle(
        v,
        peer,
        topic,
    ) {
        q.outbound[topic] == (BindingView { credit: None, ..p.outbound[topic] })
    } else {
        q.outbound[topic] == p.outbound[topic]
    } by {
        let b = p.outbound[topic];
        assert(idle(v, peer, topic) <==> b.credit is Some && !crate::control::awaited(
            v.deliveries.pending,
            peer,
            b.sub,
            topic,
        ));
    }
}

proof fn lemma_deliveries_to_others<H>(
    v: OwnerView<H>,
    ids: Seq<Seq<u8>>,
    now: u128,
    k: DeliveryKeyView,
)
    requires
        !ids.contains(k.peer),
    ensures
        untouched(v.deliveries, without_peers(v, ids, now).deliveries, k),
    decreases ids.len(),
{
    if ids.len() > 0 {
        let rest = ids.drop_last();
        if rest.contains(k.peer) {
            let j = choose|j: int| 0 <= j < rest.len() && rest[j] == k.peer;
            assert(ids[j] == k.peer);
        }
        assert(ids[ids.len() - 1] == ids.last());
        lemma_deliveries_to_others(v, rest, now, k);
    }
}

proof fn lemma_none_is_added<H>(v: OwnerView<H>, ids: Seq<Seq<u8>>, now: u128)
    ensures
        forall|k: DeliveryKeyView| #[trigger]
            without_peers(v, ids, now).deliveries.pending.contains_key(k)
                ==> v.deliveries.pending.contains_key(k),
    decreases ids.len(),
{
    if ids.len() > 0 {
        lemma_none_is_added(v, ids.drop_last(), now);
        let u = without_peers(v, ids.drop_last(), now);
        let w = without_peers(v, ids, now);
        assert forall|k: DeliveryKeyView| #[trigger] w.deliveries.pending.contains_key(k) implies
            v.deliveries.pending.contains_key(k) by {
            assert(u.deliveries.pending.contains_key(k));
        }
    }
}

proof fn lemma_left_alone<H>(v: OwnerView<H>, ids: Seq<Seq<u8>>, now: u128)
    ensures
        ({
            let w = without_peers(v, ids, now);
            &&& w.records == v.records
            &&& w.subscriptions.dom() == v.subscriptions.dom()
            &&& forall|t: Seq<char>| #[trigger]
                v.subscriptions.contains_key(t) ==> w.subscriptions[t].closed
                    == v.subscriptions[t].closed
            &&& w == (OwnerView {
                peers: w.peers,
                subscriptions: w.subscriptions,
                deliveries: w.deliveries,
                ..v
            })
        }),
    decreases ids.len(),
{
    if ids.len() > 0 {
        lemma_left_alone(v, ids.drop_last(), now);
        let u = without_peers(v, ids.drop_last(), now);
        let w = without_peers(v, ids, now);
        assert(w.subscriptions.dom() =~= u.subscriptions.dom());
        assert forall|t: Seq<char>| #[trigger] v.subscriptions.contains_key(t) implies w.subscriptions[t].closed
            == v.subscriptions[t].closed by {
            assert(u.subscriptions.dom().contains(t));
            assert(u.subscriptions.contains_key(t));
        }
    }
}

proof fn lemma_judging<H>(v: OwnerView<H>, n: nat, t: u64, error: Option<Error>)
    requires
        v.records.dom().finite(),
        n <= record_list(v.records).len(),
    ensures
        ({
            let w = judged_upto(v, n, t, error);
            &&& w.records.dom() == v.records.dom()
            &&& forall|k: RecordKeyView| #[trigger]
                v.records.contains_key(k) ==> w.records[k].expires == v.records[k].expires
            &&& w.peers.dom() == v.peers.dom()
            &&& forall|p: Seq<u8>| #[trigger]
                v.peers.contains_key(p) ==> w.peers[p].reg == v.peers[p].reg && w.peers[p].outbound
                    == v.peers[p].outbound && w.peers[p].lost == v.peers[p].lost
            &&& w == (OwnerView { records: w.records, replies: w.replies, peers: w.peers, ..v })
        }),
    decreases n,
{
    if n > 0 {
        let l = (n - 1) as nat;
        lemma_judging(v, l, t, error);
        let u = judged_upto(v, l, t, error);
        let w = judged_upto(v, n, t, error);
        let s = record_list(v.records);
        lemma_listing_exists::<RecordKey, RecordView<H>>(v.records);
        lemma_pairs_map_index::<RecordKey, RecordView<H>>(s, l as int);
        let key = s[l as int].0;
        assert(v.records.contains_key(key));
        assert(u.records.dom().contains(key));
        law_verdict_is_carried_out(u, key, t, error);
        assert(w.records.dom() =~= u.records.dom());
        assert(w.peers.dom() =~= u.peers.dom());
        assert forall|k: RecordKeyView| #[trigger] v.records.contains_key(k) implies w.records[k].expires
            == v.records[k].expires by {
            assert(u.records.dom().contains(k));
            assert(u.records.contains_key(k));
        }
        assert forall|p: Seq<u8>| #[trigger] v.peers.contains_key(p) implies w.peers[p].reg
            == v.peers[p].reg && w.peers[p].outbound == v.peers[p].outbound && w.peers[p].lost
            == v.peers[p].lost by {
            assert(u.peers.dom().contains(p));
            assert(u.peers.contains_key(p));
        }
    }
}

/// Seeing to everything keeps what is good: exactly the peers that are to be kept, exactly the
/// subscriptions that the application has not let go of, and what is remembered of messages while
/// it has time. A delivery to a peer that stays goes on as it was, while it is allowed to, and none
/// is added. No room is left that nothing waits to use.
pub proof fn law_tidying_keeps_what_is_good<H>(v: OwnerView<H>, clock: Option<u64>, now: u128)
    requires
        v.peers.dom().finite(),
        v.subscriptions.dom().finite(),
        v.records.dom().finite(),
    ensures
        ({
            let x = after_clock(v, clock, now);
            let w = tidied(v, clock, now);
            let t = match clock {
                Some(t) => t,
                None => 0,
            };
            &&& forall|id: Seq<u8>| #[trigger]
                w.peers.contains_key(id) <==> v.peers.contains_key(id) && !is_stale(
                    x,
                    id,
                    v.peers[id],
                    clock,
                )
            &&& forall|id: Seq<u8>| #[trigger]
                w.peers.contains_key(id) ==> w.peers[id].reg == v.peers[id].reg
            &&& forall|topic: Seq<char>| #[trigger]
                w.subscriptions.contains_key(topic) <==> v.subscriptions.contains_key(topic)
                    && !v.subscriptions[topic].closed
            &&& forall|k: RecordKeyView| #[trigger]
                w.records.contains_key(k) <==> v.records.contains_key(k) && t
                    < v.records[k].expires
            &&& forall|k: DeliveryKeyView| #[trigger]
                v.deliveries.pending.contains_key(k) && w.peers.contains_key(k.peer)
                    && delivery_error(
                    x,
                    k,
                    v.deliveries.pending[k],
                    match valid_time(x, clock) {
                        Ok(_) => None,
                        Err(e) => Some(e),
                    },
                    t,
                    now,
                ) is None ==> w.deliveries.pending.contains_key(k) && w.deliveries.pending[k]
                    == v.deliveries.pending[k]
            &&& forall|k: DeliveryKeyView| #[trigger]
                w.deliveries.pending.contains_key(k) ==> v.deliveries.pending.contains_key(k)
            &&& forall|id: Seq<u8>, topic: Seq<char>|
                w.peers.contains_key(id) && #[trigger] w.peers[id].outbound.contains_key(topic)
                    ==> !idle(w, id, topic)
            &&& w.clock_failed == x.clock_failed
            &&& w.cert == v.cert && w.config == v.config && w.secret == v.secret && w.epoch
                == v.epoch
            &&& w.sequences == v.sequences && w.writes == v.writes && w.drain == v.drain
        }),
{
    let t = match clock {
        Some(t) => t,
        None => 0,
    };
    let x = after_clock(v, clock, now);
    let error = own_error(x, clock);
    let ids = stale_peers(x, listing::<EndpointId, PeerView<H>>(x.peers), clock);
    law_good_peers_stay(x, clock, now);
    lemma_left_alone(x, ids, now);
    lemma_none_is_added(x, ids, now);
    lemma_peers_left(x, ids, now);
    let y = without_stale(x, clock, now);
    law_what_is_let_go_is_given_up(y);
    let z = without_closed(y);
    lemma_judging(z, record_list(z.records).len(), t, error);
    let a = forgotten(judged(z, t, error), t);
    let b = after_failures(a, error, t, now);
    let w = credits_returned(b);
    assert(w == tidied(v, clock, now));
    assert forall|k: DeliveryKeyView| #[trigger] w.deliveries.pending.contains_key(k) implies
        v.deliveries.pending.contains_key(k) by {
        assert(y.deliveries.pending.contains_key(k));
    }
    assert forall|id: Seq<u8>, topic: Seq<char>|
        w.peers.contains_key(id) && #[trigger] w.peers[id].outbound.contains_key(topic) implies
        !idle(w, id, topic) by {
        let was = b.peers[id].outbound[topic];
        assert(b.peers.contains_key(id));
        assert(w.peers[id] == peer_relieved(b.peers[id], b.deliveries.pending, id));
        assert(b.peers[id].outbound.contains_key(topic));
        assert(w.peers[id].outbound[topic] == relieved(was, b.deliveries.pending, id, topic));
        assert(w.deliveries == b.deliveries);
        if w.peers[id].outbound[topic].credit is Some {
            assert(awaited(b.deliveries.pending, id, was.sub, topic));
        }
    }
    assert forall|id: Seq<u8>| #[trigger] w.peers.contains_key(id) <==> v.peers.contains_key(id)
        && !is_stale(x, id, v.peers[id], clock) by {
        assert(w.peers.contains_key(id) <==> a.peers.dom().contains(id));
        assert(z.peers.dom().contains(id) <==> y.peers.contains_key(id));
    }
    assert forall|id: Seq<u8>| #[trigger] w.peers.contains_key(id) implies w.peers[id].reg
        == v.peers[id].reg && a.peers[id].reg == x.peers[id].reg && a.peers[id].outbound
        == x.peers[id].outbound by {
        assert(y.peers.contains_key(id));
        assert(z.peers.dom().contains(id));
        assert(z.peers.contains_key(id));
    }
    assert forall|topic: Seq<char>| #[trigger] w.subscriptions.contains_key(topic)
        <==> v.subscriptions.contains_key(topic) && !v.subscriptions[topic].closed by {
        assert(z.subscriptions.contains_key(topic) <==> y.subscriptions.contains_key(topic)
            && !y.subscriptions[topic].closed);
        assert(y.subscriptions.dom().contains(topic) <==> x.subscriptions.contains_key(topic));
    }
    assert forall|k: RecordKeyView| #[trigger] w.records.contains_key(k) <==> v.records.contains_key(k)
        && t < v.records[k].expires by {
        assert(judged(z, t, error).records.dom().contains(k) <==> z.records.contains_key(k));
    }
    assert forall|k: DeliveryKeyView| #[trigger]
        v.deliveries.pending.contains_key(k) && w.peers.contains_key(k.peer) && delivery_error(
            x,
            k,
            v.deliveries.pending[k],
            error,
            t,
            now,
        ) is None implies w.deliveries.pending.contains_key(k) && w.deliveries.pending[k]
        == v.deliveries.pending[k] by {
        assert(y.peers.contains_key(k.peer));
        assert(!ids.contains(k.peer));
        lemma_deliveries_to_others(x, ids, now, k);
        assert(a.deliveries.pending.contains_key(k));
        assert(a.peers.dom().contains(k.peer));
        assert(a.peers.contains_key(k.peer));
        assert(delivery_error(a, k, a.deliveries.pending[k], error, t, now) is None);
    }
}

proof fn lemma_granting<H>(
    v: OwnerView<H>,
    q: Seq<(Seq<char>, Seq<u8>)>,
    funds: Seq<Option<H>>,
    n: nat,
)
    ensures
        ({
            let w = granted_upto(v, q, funds, n);
            w == (OwnerView { peers: w.peers, subscriptions: w.subscriptions, ..v })
        }),
    decreases n,
{
    if n > 0 {
        lemma_granting(v, q, funds, (n - 1) as nat);
    }
}

/// After everything is seen to, no delivery is left that can be attempted and whose peer has granted
/// the bytes that it takes: it was written.
pub proof fn law_upkeep_sends_what_can_go<H, F: Fn(&Topic, CreditPermits) -> H>(
    v: OwnerView<H>,
    w: OwnerView<H>,
    clock: Option<u64>,
    now: u128,
    f: FundsView,
    g: FundsView,
    attach: F,
)
    requires
        v.peers.dom().finite(),
        v.subscriptions.dom().finite(),
        v.records.dom().finite(),
        v.deliveries.pending.dom().finite(),
        now <= 18446744073709551615999999999,
        v.config.retry_interval <= 18446744073709551615999999999,
        maintained(v, w, clock, now, f, g, attach),
    ensures
        forall|k: DeliveryKeyView| #[trigger]
            w.deliveries.pending.contains_key(k) ==> !(ready(w, k, clock, now) && granted(w, k)),
{
    law_tidying_keeps_what_is_good(v, clock, now);
    let x = tidied(v, clock, now);
    vstd::set_lib::lemma_set_subset_finite(v.deliveries.pending.dom(), x.deliveries.pending.dom());
    let (u, funds) = choose|u: OwnerView<H>, funds: Seq<Option<H>>| #[trigger]
        considered_all(x, u, clock, f, g, attach, funds) && scheduled_somehow(u, w, clock, now);
    lemma_granting(after_queue(x, clock), queue(x, clock), funds, queue(x, clock).len());
    assert(u.deliveries == x.deliveries && u.config == x.config);
    let jitters = choose|jitters: Seq<u16>|
        jitters.len() == delivery_list(u.deliveries.pending).len() && w == #[trigger] scheduled(
            u,
            clock,
            now,
            jitters,
        );
    law_nothing_is_left_that_could_go(u, clock, now, jitters);
    assert forall|k: DeliveryKeyView| #[trigger] w.deliveries.pending.contains_key(k) implies !(
    ready(w, k, clock, now) && granted(w, k)) by {
        assert(u.deliveries.pending.dom().contains(k));
        assert(u.deliveries.pending.contains_key(k));
    }
}

// Connecting

/// An endpoint dials only hosts of its own realm and authority, never itself, not while it is
/// shutting down, and not one that it is connected to already.
pub proof fn law_who_is_dialed<H>(v: OwnerView<H>, i: InviteView, clock: Option<u64>)
    ensures
        ({
            let r = dial_review(v, i, clock);
            let its = i.realm_id == v.config.trust.realm && i.authority == v.config.trust.root
                && i.host != public_key(v.secret);
            &&& valid_time(v, clock) matches Err(e) ==> r == Err::<bool, Error>(e)
            &&& valid_time(v, clock) is Ok && v.drain is Some ==> r == Err::<bool, Error>(
                Error::ShuttingDown,
            )
            &&& valid_time(v, clock) is Ok && v.drain is None && !its ==> r == Err::<bool, Error>(
                Error::Unauthorized,
            )
            &&& valid_time(v, clock) is Ok && v.drain is None && its ==> r == Ok::<bool, Error>(
                !v.peers.contains_key(i.host),
            )
        }),
{
}

/// Connections that come in are counted by the second, and within a second no more than four for
/// each peer that there may be are let in.
pub proof fn law_connections_are_counted<H>(v: OwnerView<H>, now: u128)
    ensures
        ({
            let w = attempt_counted(v, now);
            let anew = now >= v.window + 1_000_000_000;
            &&& anew ==> w.window == now && w.attempts == 1
            &&& !anew ==> w.window == v.window
            &&& !anew && v.attempts < usize::MAX ==> w.attempts == v.attempts + 1
            &&& !anew && v.attempts == usize::MAX ==> w.attempts == usize::MAX
            &&& w == (OwnerView { window: w.window, attempts: w.attempts, ..v })
            &&& attempt_accepted(v, now) <==> w.attempts <= 4 * v.config.max_peers
        }),
{
}

// Authorization

/// Another certificate is taken up exactly when the endpoint is not shutting down, the certificate
/// is verified for it, and what it takes could be set aside. Otherwise nothing changes.
pub proof fn law_renewal_is_all_or_nothing<H>(
    v: OwnerView<H>,
    c: CertificateView,
    reserved: Result<(), Error>,
    clock: Option<u64>,
    now: u128,
)
    ensures
        ({
            let (w, r) = renewal(v, c, reserved, clock, now);
            &&& v.drain is Some ==> r == Err::<(), Error>(Error::ShuttingDown)
            &&& v.drain is None && clock is None ==> r == Err::<(), Error>(Error::Clock)
            &&& v.drain is None ==> (clock matches Some(t) ==> {
                let good = trust_verify(v.config.trust, c, public_key(v.secret), t);
                &&& good matches Err(e) ==> r == Err::<(), Error>(e)
                &&& good is Ok ==> (r is Ok <==> reserved is Ok) && (reserved matches Err(e) ==> r
                    == Err::<(), Error>(e))
            })
            &&& r is Ok ==> w == renewed(v, c, now)
            &&& r is Err ==> w == v
        }),
{
}

/// A certificate that is denied counts as revoked from then on, together with those that were
/// before. The result tells whether it is new. There are 4096 at most.
pub proof fn law_denial_adds_one<H>(v: OwnerView<H>, id: Seq<u8>)
    ensures
        ({
            let (w, r) = denied(v, id);
            let t = v.config.trust;
            let full = t.revoked.len() >= 4096 && !t.revoked.contains(id);
            &&& full ==> w == v && r == Err::<bool, Error>(Error::QueueFull)
            &&& !full ==> {
                &&& r == Ok::<bool, Error>(!t.revoked.contains(id))
                &&& w.config.trust.revoked == t.revoked.insert(id)
                &&& w.config.trust == (TrustView { revoked: w.config.trust.revoked, ..t })
                &&& w.config == (ConfigView { trust: w.config.trust, ..v.config })
                &&& w == (OwnerView { config: w.config, ..v })
            }
        }),
{
}

/// A list of revoked certificates that is taken over changes what the endpoint trusts, and nothing
/// else. The result tells how many are new.
pub proof fn law_revocations_change_trust<H>(v: OwnerView<H>, snapshot: Seq<u8>, clock: Option<u64>)
    ensures
        ({
            let (w, r) = revoked_by(v, snapshot, clock);
            &&& clock is None ==> w == v && r == Err::<usize, Error>(Error::Clock)
            &&& clock matches Some(t) ==> match trust_apply(v.config.trust, snapshot, t) {
                Err(e) => w == v && r == Err::<usize, Error>(e),
                Ok(trust) => {
                    &&& r is Ok
                    &&& 0 <= trust.revoked.len() - v.config.trust.revoked.len() <= usize::MAX
                        ==> r->Ok_0 == trust.revoked.len() - v.config.trust.revoked.len()
                    &&& w.config.trust == trust
                    &&& w.config == (ConfigView { trust, ..v.config })
                    &&& w == (OwnerView { config: w.config, ..v })
                },
            }
        }),
{
}

// The end

/// An endpoint that begins to shut down tells every peer goodbye, after what each was told before,
/// and notes by when it is to be done. It begins only once.
pub proof fn law_shutting_down_says_goodbye<H>(v: OwnerView<H>, deadline: u128)
    ensures
        ({
            let (w, r) = shut_down(v, deadline);
            &&& v.drain is Some ==> w == v && r == Err::<(), Error>(Error::ShuttingDown)
            &&& v.drain is None ==> {
                &&& r is Ok
                &&& w.drain == Some(deadline)
                &&& w.peers.dom() == v.peers.dom()
                &&& forall|p: Seq<u8>| #[trigger]
                    v.peers.contains_key(p) ==> {
                        &&& w.peers[p].outbox == v.peers[p].outbox.push(ControlView::Goodbye)
                        &&& w.peers[p] == (PeerView { outbox: w.peers[p].outbox, ..v.peers[p] })
                    }
                &&& w == (OwnerView { drain: w.drain, peers: w.peers, ..v })
            }
        }),
{
}

/// An endpoint that shuts down is done when nothing is on its way any more, or the time for it is
/// over. One that does not shut down is never done.
pub proof fn law_draining_is_done<H>(v: OwnerView<H>, now: u128)
    ensures
        v.drain is None ==> !is_drained(v, now),
        v.drain matches Some(deadline) ==> (is_drained(v, now) <==> now >= deadline || (forall|
            k: DeliveryKeyView,
        |
            !(#[trigger] v.deliveries.pending.contains_key(k)))),
{
    if forall|k: DeliveryKeyView| !(#[trigger] v.deliveries.pending.contains_key(k)) {
        assert(v.deliveries.pending =~= Map::<DeliveryKeyView, PendingView<H>>::empty());
    }
}

/// An endpoint that ends lets everyone go. What is still on its way has failed, which its publisher
/// is told, and is counted; handlers that are at work are told that it is over.
pub proof fn law_end_leaves_nobody_waiting<H>(v: OwnerView<H>)
    requires
        v.deliveries.pending.dom().len() <= usize::MAX,
    ensures
        ({
            let w = ended(v);
            &&& w.peers.dom() == Set::<Seq<u8>>::empty()
            &&& w.subscriptions.dom() == Set::<Seq<char>>::empty()
            &&& w.records.dom() == Set::<RecordKeyView>::empty()
            &&& w.deliveries.pending.dom() == Set::<DeliveryKeyView>::empty()
            &&& w.deliveries.closed == v.deliveries.closed
            &&& forall|k: DeliveryKeyView| #[trigger]
                v.deliveries.pending.contains_key(k) ==> w.deliveries.ended.contains_key(k)
                    && w.deliveries.ended[k].outcome == RecipientOutcome::Failed(Error::ShuttingDown)
                    && w.deliveries.ended[k].held == v.deliveries.pending[k].held
            &&& forall|k: DeliveryKeyView| #[trigger]
                w.deliveries.ended.contains_key(k) && !v.deliveries.pending.contains_key(k)
                    ==> v.deliveries.ended.contains_key(k) && w.deliveries.ended[k]
                    == v.deliveries.ended[k]
            &&& forall|k: DeliveryKeyView| #[trigger]
                v.deliveries.ended.contains_key(k) ==> w.deliveries.ended.contains_key(k)
            &&& forall|k: RecordKeyView| #[trigger]
                v.records.contains_key(k) && v.records[k].state is Processing
                    ==> w.replies.contains_key(k) && w.replies[k].result == Err::<(), Error>(
                    Error::ShuttingDown,
                ) && w.replies[k].waiter == v.records[k].waiter
            &&& forall|k: RecordKeyView| #[trigger]
                w.replies.contains_key(k) && !(v.records.contains_key(k)
                    && v.records[k].state is Processing) ==> v.replies.contains_key(k)
                    && w.replies[k] == v.replies[k]
            &&& forall|k: RecordKeyView| #[trigger]
                v.replies.contains_key(k) ==> w.replies.contains_key(k)
            &&& w.stats.unfinished_on_shutdown == v.deliveries.pending.dom().len()
            &&& w.stats == (Metrics {
                unfinished_on_shutdown: w.stats.unfinished_on_shutdown,
                ..v.stats
            })
            &&& w == (OwnerView {
                peers: w.peers,
                subscriptions: w.subscriptions,
                deliveries: w.deliveries,
                records: w.records,
                replies: w.replies,
                stats: w.stats,
                ..v
            })
        }),
{
}

// What is taken out

/// What is taken out is all that was there, in the order in which it came to be, and it is there no
/// more. Nothing else changes.
pub proof fn law_what_is_taken_out_is_all<H>(v: OwnerView<H>, peer: Seq<u8>)
    ensures
        ({
            let (w, outbox) = outbox_taken(v, peer);
            &&& !v.peers.contains_key(peer) ==> w == v && outbox.len() == 0
            &&& v.peers.contains_key(peer) ==> {
                &&& outbox == v.peers[peer].outbox
                &&& w.peers.dom() == v.peers.dom()
                &&& w.peers[peer].outbox.len() == 0
                &&& w.peers[peer] == (PeerView { outbox: w.peers[peer].outbox, ..v.peers[peer] })
                &&& forall|q: Seq<u8>| #[trigger]
                    v.peers.contains_key(q) && q != peer ==> w.peers[q] == v.peers[q]
                &&& w == (OwnerView { peers: w.peers, ..v })
            }
        }),
        writes_taken(v).1 == v.writes,
        writes_taken(v).0.writes.len() == 0,
        writes_taken(v).0 == (OwnerView { writes: writes_taken(v).0.writes, ..v }),
        endings_taken(v).1 == v.deliveries.ended,
        endings_taken(v).0.deliveries.ended.dom() == Set::<DeliveryKeyView>::empty(),
        endings_taken(v).0 == (OwnerView {
            deliveries: DeliveriesView {
                ended: endings_taken(v).0.deliveries.ended,
                ..v.deliveries
            },
            ..v
        }),
        replies_taken(v).1 == v.replies,
        replies_taken(v).0.replies.dom() == Set::<RecordKeyView>::empty(),
        replies_taken(v).0 == (OwnerView { replies: replies_taken(v).0.replies, ..v }),
{
}

/// A message that comes in whole and in order is dealt with as it is to be. One that is out of
/// order lets its peer go.
pub proof fn law_disorder_lets_the_peer_go<H>(
    v: OwnerView<H>,
    peer: Seq<u8>,
    session: Seq<u8>,
    sub: Seq<u8>,
    ticket: TicketView<H>,
    payload: Seq<u8>,
    room: bool,
    waiter: H,
    clock: Option<u64>,
    now: u128,
)
    ensures
        ({
            let (w, r) = received(
                v,
                peer,
                session,
                sub,
                ticket,
                payload,
                room,
                waiter,
                clock,
                now,
            );
            match arrival(v, peer, session, sub, ticket, payload, room, clock) {
                Ok(a) => r == Some(a) && w == after_arrival(v, peer, sub, ticket, a, waiter),
                Err(_) => r is None && w == without_peer(v, peer, now) && !w.peers.contains_key(
                    peer,
                ),
            }
        }),
{
}

/// The measures of an endpoint are how many peers, deliveries, records and remembered deliveries
/// there are, the memory that is in use and was at most, and what was counted before.
pub proof fn law_measures_are_what_is_there<H>(v: OwnerView<H>, memory: MemoryUse)
    requires
        v.peers.dom().len() <= usize::MAX,
        v.deliveries.pending.dom().len() <= usize::MAX,
        v.deliveries.closed.dom().len() <= usize::MAX,
        v.records.dom().len() <= usize::MAX,
    ensures
        ({
            let m = metrics_of(v, memory);
            &&& m.peers == v.peers.dom().len()
            &&& m.pending_deliveries == v.deliveries.pending.dom().len()
            &&& m.deduplication_records == v.records.dom().len()
            &&& m.terminal_receipts == v.deliveries.closed.dom().len()
            &&& m.resident_payload_bytes == memory.payload
            &&& m.metadata_bytes == memory.metadata
            &&& m.peak_payload_bytes == memory.payload_peak
            &&& m.peak_metadata_bytes == memory.metadata_peak
            &&& m.unfinished_on_shutdown == v.stats.unfinished_on_shutdown
            &&& m.admitted == v.stats.admitted
            &&& m.rejected == v.stats.rejected
            &&& m.processed == v.stats.processed
            &&& m.retried == v.stats.retried
            &&& m.expired == v.stats.expired
            &&& m.authorization_failures == v.stats.authorization_failures
        }),
{
}

/// The room that is outstanding is what is granted over all subscriptions.
pub proof fn law_outstanding_room_is_counted<H>(
    s: Seq<(Seq<char>, SubscriptionView<H>)>,
    topic: Seq<char>,
    sub: SubscriptionView<H>,
)
    ensures
        crate::lifecycle::grants_total(Seq::<(Seq<char>, SubscriptionView<H>)>::empty()) == 0,
        crate::lifecycle::grants_total(s.push((topic, sub))) == crate::lifecycle::grants_total(s)
            + sub.grants.dom().len(),
{
    assert(s.push((topic, sub)).drop_last() =~= s);
}

} // verus!
