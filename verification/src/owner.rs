//! The state of an endpoint: its peers, its subscriptions, its messages on their way out, and what
//! it remembers of the messages that came in. One owner takes every decision.
//!
//! What the owner cannot do itself, it leaves to its surroundings. Records for a peer wait in the
//! peer's outbox, deliveries to be written are listed, and outcomes and replies wait to be told.
//! What only the surroundings know (that a connection is gone, that a queue has room, that a
//! handler is done) they note down before they ask for a decision. `H` stands for what they attach
//! to an entry, and is let go with the entry.
use crate::auth::{
    claims_allow, trust_check, trust_verify, Certificate, CertificateLimits, CertificateView,
};
use crate::crypto::{public_key, EndpointId, Id};
use crate::deliveries::{
    after_ending, Deliveries, DeliveriesView, DeliveryKey, DeliveryKeyView, Ending, Pending,
    PendingView, RecordKey, RecordKeyView,
};
use crate::endpoint::{no_metrics, Config, ConfigView, Disposition, Metrics, RecipientOutcome};
use crate::error::Error;
use crate::identity::Identity;
use crate::message::{DeliveryMode, Topic};
use crate::octets::{bytes_less, same_bytes, Relation};
use crate::ordered::{lemma_mapped, listing, mapped, Key, OrderedMap};
use crate::wire::{Control, ControlView};
use vstd::prelude::*;

verus! {

// Peers

/// The way to one subscription of a peer, as a value.
#[verifier::ext_equal]
pub struct BindingView<H> {
    pub sub: Seq<u8>,
    pub mode: DeliveryMode,
    pub credit: Option<usize>,
    pub requested: bool,
    pub room: bool,
    pub writer: H,
}

/// The way to one subscription of a peer.
pub struct Binding<H> {
    pub sub: Id,
    pub mode: DeliveryMode,
    /// The size of the one frame that the peer takes next, if it has granted one.
    pub credit: Option<usize>,
    /// Whether such a grant has been asked for.
    pub requested: bool,
    /// Whether the writer of this subscription has room for a frame.
    pub room: bool,
    pub writer: H,
}

impl<H> View for Binding<H> {
    type V = BindingView<H>;

    open spec fn view(&self) -> BindingView<H> {
        BindingView {
            sub: self.sub@,
            mode: self.mode,
            credit: self.credit,
            requested: self.requested,
            room: self.room,
            writer: self.writer,
        }
    }
}

/// Which stream carries the messages of a topic.
#[derive(Clone, Copy, Debug)]
pub struct Stream {
    pub sub: Id,
    pub stream: u64,
}

impl View for Stream {
    type V = (Seq<u8>, u64);

    open spec fn view(&self) -> (Seq<u8>, u64) {
        (self.sub@, self.stream)
    }
}

/// A session with a peer, as a value.
#[verifier::ext_equal]
pub struct SessionView<H> {
    pub cert: CertificateView,
    pub session: Seq<u8>,
    pub dialer: Seq<u8>,
    pub nonce: Seq<u8>,
    pub max_payload: usize,
    pub max_topics: usize,
    pub window_secs: u64,
    pub held: H,
}

/// A session with a peer: who it is, and what it said that it can take.
pub struct Session<H> {
    pub cert: Certificate,
    pub session: Id,
    pub dialer: EndpointId,
    pub nonce: Id,
    pub max_payload: usize,
    pub max_topics: usize,
    pub window_secs: u64,
    pub held: H,
}

impl<H> View for Session<H> {
    type V = SessionView<H>;

    open spec fn view(&self) -> SessionView<H> {
        SessionView {
            cert: self.cert@,
            session: self.session@,
            dialer: self.dialer@,
            nonce: self.nonce@,
            max_payload: self.max_payload,
            max_topics: self.max_topics,
            window_secs: self.window_secs,
            held: self.held,
        }
    }
}

/// A connected peer, as a value.
#[verifier::ext_equal]
pub struct PeerView<H> {
    pub reg: SessionView<H>,
    pub outbound: Map<Seq<char>, BindingView<H>>,
    pub inbound: Map<Seq<char>, (Seq<u8>, u64)>,
    pub outbox: Seq<ControlView>,
    pub lost: bool,
}

/// A connected peer.
pub struct Peer<H> {
    pub reg: Session<H>,
    /// Its subscriptions, by topic.
    pub outbound: OrderedMap<Topic, Binding<H>>,
    /// The streams that it sends messages on, by topic.
    pub inbound: OrderedMap<Topic, Stream>,
    /// What it is to be told.
    pub outbox: Vec<Control>,
    /// Whether its connection is gone.
    pub lost: bool,
}

/// The views of a list of control records.
pub open spec fn control_views(s: Seq<Control>) -> Seq<ControlView> {
    Seq::new(s.len(), |i: int| s[i]@)
}

impl<H> View for Peer<H> {
    type V = PeerView<H>;

    open spec fn view(&self) -> PeerView<H> {
        PeerView {
            reg: self.reg@,
            outbound: self.outbound@,
            inbound: self.inbound@,
            outbox: control_views(self.outbox@),
            lost: self.lost,
        }
    }
}

/// A peer that is to be told one thing more.
pub open spec fn told<H>(p: PeerView<H>, c: ControlView) -> PeerView<H> {
    PeerView { outbox: p.outbox.push(c), ..p }
}

impl<H> Peer<H> {
    /// Puts a record into the outbox.
    pub fn tell(&mut self, control: Control)
        ensures
            final(self)@ == told(old(self)@, control@),
            final(self).outbound == old(self).outbound,
    {
        let ghost before = self.outbox@;
        self.outbox.push(control);
        assert(control_views(self.outbox@) =~= control_views(before).push(control@));
    }
}

// Subscriptions

/// Room that is set aside for one frame of a peer, as a value.
#[verifier::ext_equal]
pub struct CreditView<H> {
    pub bytes: usize,
    pub held: H,
}

/// Room that is set aside for one frame of a peer.
pub struct Credit<H> {
    pub bytes: usize,
    pub held: H,
}

impl<H> View for Credit<H> {
    type V = CreditView<H>;

    open spec fn view(&self) -> CreditView<H> {
        CreditView { bytes: self.bytes, held: self.held }
    }
}

/// A peer's answer to a subscription.
#[derive(Debug)]
pub struct Answer {
    pub result: Result<(), Error>,
}

impl View for Answer {
    type V = Result<(), Error>;

    open spec fn view(&self) -> Result<(), Error> {
        self.result
    }
}

/// A subscription of this endpoint, as a value.
#[verifier::ext_equal]
pub struct SubscriptionView<H> {
    pub id: Seq<u8>,
    pub mode: DeliveryMode,
    pub confirmed: Set<Seq<u8>>,
    pub grants: Map<Seq<u8>, CreditView<H>>,
    pub demand: Map<Seq<u8>, usize>,
    pub ready: Map<Seq<u8>, Result<(), Error>>,
    pub closed: bool,
    pub held: H,
}

/// A subscription of this endpoint.
pub struct LocalSubscription<H> {
    pub id: Id,
    pub mode: DeliveryMode,
    /// The peers that have accepted it.
    pub confirmed: OrderedMap<EndpointId, ()>,
    /// The peers that may send a frame, and how large a one.
    pub grants: OrderedMap<EndpointId, Credit<H>>,
    /// The peers that want to send a frame, and how large a one.
    pub demand: OrderedMap<EndpointId, usize>,
    /// What each peer answered.
    pub ready: OrderedMap<EndpointId, Answer>,
    /// Whether the application has let go of it.
    pub closed: bool,
    pub held: H,
}

impl<H> View for LocalSubscription<H> {
    type V = SubscriptionView<H>;

    open spec fn view(&self) -> SubscriptionView<H> {
        SubscriptionView {
            id: self.id@,
            mode: self.mode,
            confirmed: self.confirmed@.dom(),
            grants: self.grants@,
            demand: self.demand@,
            ready: self.ready@,
            closed: self.closed,
            held: self.held,
        }
    }
}

/// A subscription that nobody has answered.
pub open spec fn fresh_subscription<H>(
    id: Seq<u8>,
    mode: DeliveryMode,
    held: H,
) -> SubscriptionView<H> {
    SubscriptionView {
        id,
        mode,
        confirmed: Set::empty(),
        grants: Map::empty(),
        demand: Map::empty(),
        ready: Map::empty(),
        closed: false,
        held,
    }
}

/// A subscription without anything of one peer.
pub open spec fn subscription_without<H>(
    s: SubscriptionView<H>,
    peer: Seq<u8>,
) -> SubscriptionView<H> {
    SubscriptionView {
        confirmed: s.confirmed.remove(peer),
        grants: s.grants.remove(peer),
        demand: s.demand.remove(peer),
        ready: s.ready.remove(peer),
        ..s
    }
}

impl<H> LocalSubscription<H> {
    pub fn new(id: Id, mode: DeliveryMode, held: H) -> (s: Self)
        ensures
            s@ == fresh_subscription(id@, mode, held),
    {
        let s = LocalSubscription {
            id,
            mode,
            confirmed: OrderedMap::new(),
            grants: OrderedMap::new(),
            demand: OrderedMap::new(),
            ready: OrderedMap::new(),
            closed: false,
            held,
        };
        assert(s@ =~= fresh_subscription(id@, mode, held));
        s
    }

    /// Forgets everything of one peer.
    pub fn forget(&mut self, peer: &EndpointId)
        ensures
            final(self)@ == subscription_without(old(self)@, peer@),
    {
        self.confirmed.remove(peer);
        self.grants.remove(peer);
        self.demand.remove(peer);
        self.ready.remove(peer);
        assert(self@ =~= subscription_without(old(self)@, peer@));
    }
}

// Messages that came in

/// What is known of a message that came in.
#[derive(Clone, Copy, Debug, PartialEq, Eq, Structural)]
pub enum RecordState {
    /// A handler has it, and has said this of it.
    Processing(Disposition),
    Retryable,
    Processed,
    Permanent,
}

/// A message that came in, as a value.
#[verifier::ext_equal]
pub struct RecordView<H> {
    pub fingerprint: Seq<u8>,
    pub expires: u64,
    pub state: RecordState,
    pub memory: H,
    pub waiter: Option<H>,
}

/// A message that came in, remembered so that it is not handled twice.
pub struct Record<H> {
    pub fingerprint: [u8; 32],
    pub expires: u64,
    pub state: RecordState,
    pub memory: H,
    /// Who waits to be told that the handler's verdict counts.
    pub waiter: Option<H>,
}

impl<H> View for Record<H> {
    type V = RecordView<H>;

    open spec fn view(&self) -> RecordView<H> {
        RecordView {
            fingerprint: self.fingerprint@,
            expires: self.expires,
            state: self.state,
            memory: self.memory,
            waiter: self.waiter,
        }
    }
}

/// Whether a handler's verdict counts, as a value.
#[verifier::ext_equal]
pub struct ReplyView<H> {
    pub result: Result<(), Error>,
    pub waiter: Option<H>,
}

/// Whether a handler's verdict counts, until the handler is told.
pub struct Reply<H> {
    pub result: Result<(), Error>,
    pub waiter: Option<H>,
}

impl<H> View for Reply<H> {
    type V = ReplyView<H>;

    open spec fn view(&self) -> ReplyView<H> {
        ReplyView { result: self.result, waiter: self.waiter }
    }
}

// The owner

/// The state of an endpoint, as a value. Moments are in nanoseconds.
#[verifier::ext_equal]
pub struct OwnerView<H> {
    pub config: ConfigView,
    pub secret: Seq<u8>,
    pub cert: CertificateView,
    pub epoch: Seq<u8>,
    pub peers: Map<Seq<u8>, PeerView<H>>,
    pub subscriptions: Map<Seq<char>, SubscriptionView<H>>,
    pub deliveries: DeliveriesView<H>,
    pub records: Map<RecordKeyView, RecordView<H>>,
    pub replies: Map<RecordKeyView, ReplyView<H>>,
    pub sequences: Map<Seq<char>, u64>,
    pub writes: Seq<DeliveryKeyView>,
    pub stats: Metrics,
    pub drain: Option<u128>,
    pub cursor: usize,
    pub clock_start: (u64, u128),
    pub clock_failed: bool,
    pub attempts: usize,
    pub window: u128,
}

/// The state of an endpoint.
pub struct Owner<H> {
    pub config: Config,
    pub identity: Identity,
    pub cert: Certificate,
    /// What tells this run of the endpoint from every other.
    pub epoch: Id,
    pub peers: OrderedMap<EndpointId, Peer<H>>,
    pub subscriptions: OrderedMap<Topic, LocalSubscription<H>>,
    pub deliveries: Deliveries<H>,
    pub records: OrderedMap<RecordKey, Record<H>>,
    /// What handlers are to be told.
    pub replies: OrderedMap<RecordKey, Reply<H>>,
    /// The number of the last message on each topic.
    pub sequences: OrderedMap<Topic, u64>,
    /// The deliveries that are to be written.
    pub writes: Vec<DeliveryKey>,
    pub stats: Metrics,
    /// Until when the endpoint drains, once it is shut down.
    pub drain: Option<u128>,
    pub cursor: usize,
    /// When the endpoint started, in seconds of the clock and as a moment.
    pub clock_start: (u64, u128),
    pub clock_failed: bool,
    /// How many connections have come in during the present second.
    pub attempts: usize,
    pub window: u128,
}

/// The views of a list of deliveries.
pub open spec fn key_views(s: Seq<DeliveryKey>) -> Seq<DeliveryKeyView> {
    Seq::new(s.len(), |i: int| s[i]@)
}

impl<H> View for Owner<H> {
    type V = OwnerView<H>;

    open spec fn view(&self) -> OwnerView<H> {
        OwnerView {
            config: self.config@,
            secret: self.identity@,
            cert: self.cert@,
            epoch: self.epoch@,
            peers: self.peers@,
            subscriptions: self.subscriptions@,
            deliveries: self.deliveries@,
            records: self.records@,
            replies: self.replies@,
            sequences: self.sequences@,
            writes: key_views(self.writes@),
            stats: self.stats,
            drain: self.drain,
            cursor: self.cursor,
            clock_start: self.clock_start,
            clock_failed: self.clock_failed,
            attempts: self.attempts,
            window: self.window,
        }
    }
}

/// An endpoint that has just started.
pub open spec fn fresh_owner<H>(
    config: ConfigView,
    secret: Seq<u8>,
    cert: CertificateView,
    epoch: Seq<u8>,
    clock: Option<u64>,
    now: u128,
) -> OwnerView<H> {
    OwnerView {
        config,
        secret,
        cert,
        epoch,
        peers: Map::empty(),
        subscriptions: Map::empty(),
        deliveries: DeliveriesView {
            pending: Map::empty(),
            closed: Map::empty(),
            ended: Map::empty(),
        },
        records: Map::empty(),
        replies: Map::empty(),
        sequences: Map::empty(),
        writes: Seq::empty(),
        stats: no_metrics(),
        drain: None,
        cursor: 0,
        clock_start: (
            match clock {
                Some(t) => t,
                None => 0,
            },
            now,
        ),
        clock_failed: false,
        attempts: 0,
        window: now,
    }
}

/// This endpoint's own identity.
pub open spec fn own_id<H>(v: OwnerView<H>) -> Seq<u8> {
    public_key(v.secret)
}

/// The time by which this endpoint may act, or why it may not: `clock` is what the clock says, if
/// it says anything.
pub open spec fn valid_time<H>(v: OwnerView<H>, clock: Option<u64>) -> Result<u64, Error> {
    if v.clock_failed {
        Err(Error::Clock)
    } else {
        match clock {
            None => Err(Error::Clock),
            Some(t) => match trust_check(v.config.trust, v.cert.claims, own_id(v), t) {
                Err(e) => Err(e),
                Ok(_) => Ok(t),
            },
        }
    }
}

/// Whether a peer may act in a session, or why not.
pub open spec fn valid_peer<H>(
    v: OwnerView<H>,
    peer: Seq<u8>,
    session: Seq<u8>,
    clock: Option<u64>,
) -> Result<u64, Error> {
    match valid_time(v, clock) {
        Err(e) => Err(e),
        Ok(t) => if !v.peers.contains_key(peer) || v.peers[peer].reg.session != session {
            Err(Error::PeerUnavailable)
        } else {
            match trust_check(v.config.trust, v.peers[peer].reg.cert.claims, peer, t) {
                Err(e) => Err(e),
                Ok(_) => Ok(t),
            }
        },
    }
}

/// For how many seconds beyond its expiry an attempted delivery is remembered.
pub open spec fn grace_of(c: ConfigView) -> u64 {
    let secs = (c.handshake_timeout / 1_000_000_000) as u64;
    if secs == 0 {
        1
    } else {
        secs
    }
}

/// What ends the deliveries to a peer that went away: nothing, where they can be tried again.
pub open spec fn ending_unrepeatable<H>(peer: Seq<u8>) -> Ending<H> {
    |k: DeliveryKeyView, p: PendingView<H>|
        if k.peer == peer && p.envelope.mode == DeliveryMode::BestEffort {
            Some(RecipientOutcome::Failed(Error::PeerUnavailable))
        } else {
            None
        }
}

/// The deliveries to a peer made ready for another attempt.
pub open spec fn paused<H>(
    m: Map<DeliveryKeyView, PendingView<H>>,
    peer: Seq<u8>,
    now: u128,
) -> Map<DeliveryKeyView, PendingView<H>> {
    mapped(
        m,
        |k: DeliveryKeyView, p: PendingView<H>|
            if k.peer == peer {
                PendingView { writing: false, next: now, ..p }
            } else {
                p
            },
    )
}

/// Subscriptions without anything of one peer.
pub open spec fn subscriptions_without<H>(
    m: Map<Seq<char>, SubscriptionView<H>>,
    peer: Seq<u8>,
) -> Map<Seq<char>, SubscriptionView<H>> {
    mapped(m, |t: Seq<char>, s: SubscriptionView<H>| subscription_without(s, peer))
}

/// The state after a peer is let go.
pub open spec fn without_peer<H>(v: OwnerView<H>, peer: Seq<u8>, now: u128) -> OwnerView<H> {
    OwnerView {
        peers: v.peers.remove(peer),
        subscriptions: subscriptions_without(v.subscriptions, peer),
        deliveries: after_ending(
            DeliveriesView { pending: paused(v.deliveries.pending, peer, now), ..v.deliveries },
            ending_unrepeatable(peer),
            grace_of(v.config),
        ),
        ..v
    }
}

impl<H> Owner<H> {
    pub fn new(
        config: Config,
        identity: Identity,
        cert: Certificate,
        epoch: Id,
        clock: Option<u64>,
        now: u128,
    ) -> (o: Self)
        ensures
            o@ == fresh_owner::<H>(config@, identity@, cert@, epoch@, clock, now),
    {
        let start: u64 = match clock {
            Some(t) => t,
            None => 0,
        };
        let o = Owner {
            config,
            identity,
            cert,
            epoch,
            peers: OrderedMap::new(),
            subscriptions: OrderedMap::new(),
            deliveries: Deliveries::new(),
            records: OrderedMap::new(),
            replies: OrderedMap::new(),
            sequences: OrderedMap::new(),
            writes: Vec::new(),
            stats: Metrics::default(),
            drain: None,
            cursor: 0,
            clock_start: (start, now),
            clock_failed: false,
            attempts: 0,
            window: now,
        };
        assert(o@ =~= fresh_owner(config@, identity@, cert@, epoch@, clock, now));
        o
    }

    pub fn endpoint_id(&self) -> (id: EndpointId)
        ensures
            id@ == own_id(self@),
    {
        self.identity.endpoint_id()
    }

    /// The time by which this endpoint may act, or why it may not.
    pub fn local_valid(&self, clock: Option<u64>) -> (r: Result<u64, Error>)
        ensures
            r == valid_time(self@, clock),
    {
        if self.clock_failed {
            return Err(Error::Clock);
        }
        match clock {
            None => Err(Error::Clock),
            Some(now) => {
                self.config.trust.check(&self.cert, self.identity.endpoint_id(), now)?;
                Ok(now)
            },
        }
    }

    /// The time by which a peer may act in a session, or why it may not.
    pub fn peer_valid(&self, peer: &EndpointId, session: &Id, clock: Option<u64>) -> (r: Result<
        u64,
        Error,
    >)
        ensures
            r == valid_peer(self@, peer@, session@, clock),
    {
        let now = self.local_valid(clock)?;
        match self.peers.get(peer) {
            None => Err(Error::PeerUnavailable),
            Some(p) => {
                if !same_bytes(&p.reg.session, session) {
                    return Err(Error::PeerUnavailable);
                }
                self.config.trust.check(&p.reg.cert, *peer, now)?;
                Ok(now)
            },
        }
    }

    pub(crate) fn grace(&self) -> (secs: u64)
        ensures
            secs == grace_of(self@.config),
    {
        let secs = self.config.handshake_timeout.as_secs();
        if secs == 0 {
            1
        } else {
            secs
        }
    }

    /// Forgets everything that subscriptions hold of a peer.
    fn forget_subscriber(&mut self, peer: &EndpointId)
        ensures
            final(self)@ == (OwnerView {
                subscriptions: subscriptions_without(old(self)@.subscriptions, peer@),
                ..old(self)@
            }),
    {
        let ghost f = |t: Seq<char>, s: SubscriptionView<H>| subscription_without(s, peer@);
        let ghost pairs = self.subscriptions.pairs();
        let ghost start = self@;
        let mut i: usize = 0;
        proof {
            use_type_invariant(&self.subscriptions);
            self.subscriptions.lemma_pairs();
        }
        while i < self.subscriptions.len()
            invariant
                i <= self.subscriptions.pairs().len(),
                f == (|t: Seq<char>, s: SubscriptionView<H>| subscription_without(s, peer@)),
                pairs.len() == self.subscriptions.pairs().len(),
                forall|j: int|
                    0 <= j < i ==> #[trigger] self.subscriptions.pairs()[j] == (
                        pairs[j].0,
                        f(pairs[j].0, pairs[j].1),
                    ),
                forall|j: int|
                    i <= j < pairs.len() ==> #[trigger] self.subscriptions.pairs()[j] == pairs[j],
                self@ == (OwnerView { subscriptions: self.subscriptions@, ..start }),
            decreases pairs.len() - i,
        {
            let s = self.subscriptions.value_mut(i);
            s.forget(peer);
            i = i + 1;
        }
        proof {
            use_type_invariant(&self.subscriptions);
            self.subscriptions.lemma_pairs();
            lemma_mapped::<Topic, SubscriptionView<H>, SubscriptionView<H>>(
                pairs,
                self.subscriptions.pairs(),
                f,
            );
        }
    }

    /// Makes the deliveries to a peer ready for another attempt.
    fn pause_deliveries(&mut self, peer: &EndpointId, now: u128)
        ensures
            final(self)@ == (OwnerView {
                deliveries: DeliveriesView {
                    pending: paused(old(self)@.deliveries.pending, peer@, now),
                    ..old(self)@.deliveries
                },
                ..old(self)@
            }),
    {
        let ghost f = |k: DeliveryKeyView, p: PendingView<H>|
            if k.peer == peer@ {
                PendingView { writing: false, next: now, ..p }
            } else {
                p
            };
        let ghost pairs = self.deliveries.pending.pairs();
        let ghost start = self@;
        let mut i: usize = 0;
        proof {
            use_type_invariant(&self.deliveries.pending);
            self.deliveries.pending.lemma_pairs();
        }
        while i < self.deliveries.pending.len()
            invariant
                i <= self.deliveries.pending.pairs().len(),
                f == (|k: DeliveryKeyView, p: PendingView<H>|
                    if k.peer == peer@ {
                        PendingView { writing: false, next: now, ..p }
                    } else {
                        p
                    }),
                pairs.len() == self.deliveries.pending.pairs().len(),
                forall|j: int|
                    0 <= j < i ==> #[trigger] self.deliveries.pending.pairs()[j] == (
                        pairs[j].0,
                        f(pairs[j].0, pairs[j].1),
                    ),
                forall|j: int|
                    i <= j < pairs.len() ==> #[trigger] self.deliveries.pending.pairs()[j]
                        == pairs[j],
                self@ == (OwnerView {
                    deliveries: DeliveriesView {
                        pending: self.deliveries.pending@,
                        ..start.deliveries
                    },
                    ..start
                }),
            decreases pairs.len() - i,
        {
            if self.deliveries.pending.key_at(i).peer.same(peer) {
                let p = self.deliveries.pending.value_mut(i);
                p.writing = false;
                p.next = now;
            }
            i = i + 1;
        }
        proof {
            use_type_invariant(&self.deliveries.pending);
            self.deliveries.pending.lemma_pairs();
            lemma_mapped::<DeliveryKey, PendingView<H>, PendingView<H>>(
                pairs,
                self.deliveries.pending.pairs(),
                f,
            );
        }
    }

    /// Lets a peer go. Deliveries to it wait for it to come back, unless they cannot be repeated.
    pub fn remove_peer(&mut self, peer: &EndpointId, now: u128)
        ensures
            final(self)@ == without_peer(old(self)@, peer@, now),
    {
        let grace = self.grace();
        self.peers.remove(peer);
        self.forget_subscriber(peer);
        self.pause_deliveries(peer, now);
        let gone = *peer;
        let give_up = |k: &DeliveryKey, p: &Pending<H>| -> (o: Option<RecipientOutcome>)
            ensures
                o == ending_unrepeatable(gone@)(k@, p@),
            {
                if k.peer.same(&gone) && p.envelope.mode == DeliveryMode::BestEffort {
                    Some(RecipientOutcome::Failed(Error::PeerUnavailable))
                } else {
                    None
                }
            };
        self.deliveries.end_each(give_up, grace, Ghost(ending_unrepeatable(peer@)));
    }

    /// Lets a peer go whose session is over, unless it has another one by now.
    pub fn end_session(&mut self, peer: &EndpointId, session: &Id, now: u128)
        ensures
            final(self)@ == if old(self)@.peers.contains_key(peer@)
                && old(self)@.peers[peer@].reg.session == session@ {
                without_peer(old(self)@, peer@, now)
            } else {
                old(self)@
            },
            final(self)@ == session_over(old(self)@, peer@, session@, now),
    {
        let over = match self.peers.get(peer) {
            Some(p) => same_bytes(&p.reg.session, session),
            None => false,
        };
        if over {
            self.remove_peer(peer, now);
        }
    }
}

// Sessions

/// The endpoint after a session is over.
pub open spec fn session_over<H>(
    v: OwnerView<H>,
    peer: Seq<u8>,
    session: Seq<u8>,
    now: u128,
) -> OwnerView<H> {
    if v.peers.contains_key(peer) && v.peers[peer].reg.session == session {
        without_peer(v, peer, now)
    } else {
        v
    }
}

/// Whether one of two sessions between the same endpoints is to be kept rather than the other: the
/// one whose dialer comes first, or else whose nonce does.
pub open spec fn session_before<H>(a: SessionView<H>, b: SessionView<H>) -> bool {
    if a.dialer != b.dialer {
        bytes_less(a.dialer, b.dialer)
    } else {
        bytes_less(a.nonce, b.nonce)
    }
}

/// Whether a session is to be taken up, or why it is refused.
pub open spec fn session_review<H>(
    v: OwnerView<H>,
    peer: Seq<u8>,
    reg: SessionView<H>,
    clock: Option<u64>,
) -> Result<bool, Error> {
    match valid_time(v, clock) {
        Err(e) => Err(e),
        Ok(t) => if v.drain is Some {
            Err(Error::ShuttingDown)
        } else {
            match trust_verify(v.config.trust, reg.cert, peer, t) {
                Err(e) => Err(e),
                Ok(_) => if v.peers.contains_key(peer) {
                    Ok(session_before(reg, v.peers[peer].reg))
                } else if v.peers.dom().len() >= v.config.max_peers {
                    Err(Error::QueueFull)
                } else {
                    Ok(true)
                },
            }
        },
    }
}

/// What a new peer is told of the subscriptions, in the order of their topics.
pub open spec fn greetings<H>(m: Map<Seq<char>, SubscriptionView<H>>) -> Seq<ControlView> {
    Seq::new(
        listing::<Topic, SubscriptionView<H>>(m).len(),
        |i: int|
            ControlView::Subscribe {
                topic: listing::<Topic, SubscriptionView<H>>(m)[i].0,
                sub: listing::<Topic, SubscriptionView<H>>(m)[i].1.id,
                mode: listing::<Topic, SubscriptionView<H>>(m)[i].1.mode,
            },
    )
}

/// Deliveries whose recipient was last seen with this certificate.
pub open spec fn seen_with<H>(
    m: Map<DeliveryKeyView, PendingView<H>>,
    peer: Seq<u8>,
    cert: CertificateView,
) -> Map<DeliveryKeyView, PendingView<H>> {
    mapped(
        m,
        |k: DeliveryKeyView, p: PendingView<H>|
            if k.peer == peer {
                PendingView { recipient: cert, ..p }
            } else {
                p
            },
    )
}

/// The state after a session is taken up, in place of any that the peer had.
pub open spec fn with_session<H>(
    v: OwnerView<H>,
    peer: Seq<u8>,
    reg: SessionView<H>,
    now: u128,
) -> OwnerView<H> {
    let w = without_peer(v, peer, now);
    OwnerView {
        peers: w.peers.insert(
            peer,
            PeerView {
                reg,
                outbound: Map::empty(),
                inbound: Map::empty(),
                outbox: greetings(w.subscriptions),
                lost: false,
            },
        ),
        deliveries: DeliveriesView {
            pending: seen_with(w.deliveries.pending, peer, reg.cert),
            ..w.deliveries
        },
        ..w
    }
}

impl<H> Owner<H> {
    /// Whether a session is to be taken up, or why it is refused.
    pub fn review_session(&self, peer: &EndpointId, reg: &Session<H>, clock: Option<u64>) -> (r:
        Result<bool, Error>)
        ensures
            r == session_review(self@, peer@, reg@, clock),
    {
        let now = self.local_valid(clock)?;
        if self.drain.is_some() {
            return Err(Error::ShuttingDown);
        }
        self.config.trust.verify(&reg.cert, *peer, now)?;
        match self.peers.get(peer) {
            Some(existing) => {
                proof {
                    crate::octets::lemma_bytes_less_irreflexive(reg.dialer@);
                    crate::octets::lemma_bytes_less_irreflexive(reg.nonce@);
                }
                match reg.dialer.compare(&existing.reg.dialer) {
                    Relation::Less => return Ok(true),
                    Relation::Greater => {
                        proof {
                            lemma_not_both(reg.dialer@, existing.reg.dialer@);
                        }
                        return Ok(false);
                    },
                    Relation::Same => {},
                }
                match reg.nonce.compare(&existing.reg.nonce) {
                    Relation::Less => Ok(true),
                    Relation::Same => Ok(false),
                    Relation::Greater => {
                        proof {
                            lemma_not_both(reg.nonce@, existing.reg.nonce@);
                        }
                        Ok(false)
                    },
                }
            },
            None => {
                if self.peers.len() >= self.config.max_peers {
                    Err(Error::QueueFull)
                } else {
                    Ok(true)
                }
            },
        }
    }

    /// What a session takes of the memory for metadata: for its certificate, and for the peer.
    pub fn session_charge(&self, reg: &Session<H>) -> (n: (usize, usize))
        ensures
            n.0 == reg@.cert.bytes.len() * 4 + 16384,
            n.1 == reg@.cert.bytes.len() + 4096,
            (n.0 as nat, n.1 as nat) == session_cost(reg@),
    {
        (reg.cert.charge(), reg.cert.as_bytes().len() + 4096)
    }

    fn greet(&self) -> (v: Vec<Control>)
        ensures
            control_views(v@) == greetings(self@.subscriptions),
    {
        let mut v: Vec<Control> = Vec::new();
        let mut i: usize = 0;
        proof {
            use_type_invariant(&self.subscriptions);
            self.subscriptions.lemma_pairs();
        }
        let ghost all = greetings(self@.subscriptions);
        while i < self.subscriptions.len()
            invariant
                i <= self.subscriptions.pairs().len(),
                self.subscriptions.pairs() == listing::<Topic, SubscriptionView<H>>(
                    self@.subscriptions,
                ),
                all == greetings(self@.subscriptions),
                control_views(v@) == all.take(i as int),
            decreases self.subscriptions.pairs().len() - i,
        {
            let s = self.subscriptions.value_at(i);
            let c = Control::Subscribe {
                topic: self.subscriptions.key_at(i).clone(),
                sub: s.id,
                mode: s.mode,
            };
            let ghost before = v@;
            v.push(c);
            proof {
                assert(c@ == all[i as int]);
                assert(control_views(v@) =~= control_views(before).push(c@));
                assert(all.take(i + 1) =~= all.take(i as int).push(all[i as int]));
            }
            i = i + 1;
        }
        assert(all.take(i as int) =~= all);
        v
    }

    /// Notes the certificate that a peer was last seen with.
    fn note_certificate(&mut self, peer: &EndpointId, cert: &Certificate)
        ensures
            final(self)@ == (OwnerView {
                deliveries: DeliveriesView {
                    pending: seen_with(old(self)@.deliveries.pending, peer@, cert@),
                    ..old(self)@.deliveries
                },
                ..old(self)@
            }),
    {
        let ghost f = |k: DeliveryKeyView, p: PendingView<H>|
            if k.peer == peer@ {
                PendingView { recipient: cert@, ..p }
            } else {
                p
            };
        let ghost pairs = self.deliveries.pending.pairs();
        let ghost start = self@;
        let mut i: usize = 0;
        proof {
            use_type_invariant(&self.deliveries.pending);
            self.deliveries.pending.lemma_pairs();
        }
        while i < self.deliveries.pending.len()
            invariant
                i <= self.deliveries.pending.pairs().len(),
                f == (|k: DeliveryKeyView, p: PendingView<H>|
                    if k.peer == peer@ {
                        PendingView { recipient: cert@, ..p }
                    } else {
                        p
                    }),
                pairs.len() == self.deliveries.pending.pairs().len(),
                forall|j: int|
                    0 <= j < i ==> #[trigger] self.deliveries.pending.pairs()[j] == (
                        pairs[j].0,
                        f(pairs[j].0, pairs[j].1),
                    ),
                forall|j: int|
                    i <= j < pairs.len() ==> #[trigger] self.deliveries.pending.pairs()[j]
                        == pairs[j],
                self@ == (OwnerView {
                    deliveries: DeliveriesView {
                        pending: self.deliveries.pending@,
                        ..start.deliveries
                    },
                    ..start
                }),
            decreases pairs.len() - i,
        {
            if self.deliveries.pending.key_at(i).peer.same(peer) {
                let p = self.deliveries.pending.value_mut(i);
                p.recipient = cert.clone();
            }
            i = i + 1;
        }
        proof {
            use_type_invariant(&self.deliveries.pending);
            self.deliveries.pending.lemma_pairs();
            lemma_mapped::<DeliveryKey, PendingView<H>, PendingView<H>>(
                pairs,
                self.deliveries.pending.pairs(),
                f,
            );
        }
    }

    /// Takes up a session, if it is to be taken up and what it takes could be set aside.
    pub fn register(
        &mut self,
        peer: EndpointId,
        reg: Session<H>,
        reserved: Result<(), Error>,
        clock: Option<u64>,
        now: u128,
    ) -> (r: Result<bool, Error>)
        ensures
            match session_review(old(self)@, peer@, reg@, clock) {
                Err(e) => r == Err::<bool, Error>(e) && final(self)@ == old(self)@,
                Ok(false) => r == Ok::<bool, Error>(false) && final(self)@ == old(self)@,
                Ok(true) => match reserved {
                    Err(e) => r == Err::<bool, Error>(e) && final(self)@ == old(self)@,
                    Ok(_) => r == Ok::<bool, Error>(true) && final(self)@ == with_session(
                        old(self)@,
                        peer@,
                        reg@,
                        now,
                    ),
                },
            },
            (final(self)@, r) == registered(old(self)@, peer@, reg@, reserved, clock, now),
    {
        if !self.review_session(&peer, &reg, clock)? {
            return Ok(false);
        }
        reserved?;
        self.remove_peer(&peer, now);
        self.note_certificate(&peer, &reg.cert);
        let outbox = self.greet();
        let ghost w = without_peer(old(self)@, peer@, now);
        let p = Peer {
            reg,
            outbound: OrderedMap::new(),
            inbound: OrderedMap::new(),
            outbox,
            lost: false,
        };
        self.peers.insert(peer, p);
        assert(self@ =~= with_session(old(self)@, peer@, reg@, now));
        Ok(true)
    }
}

proof fn lemma_not_both(a: Seq<u8>, b: Seq<u8>)
    ensures
        !(bytes_less(a, b) && bytes_less(b, a)),
{
    if bytes_less(a, b) && bytes_less(b, a) {
        crate::octets::lemma_bytes_less_transitive(a, b, a);
        crate::octets::lemma_bytes_less_irreflexive(a);
    }
}

/// Of two different sessions between the same endpoints exactly one is kept, whichever of them
/// comes up first: the two ends agree on it.
pub proof fn law_one_session_wins<H>(a: SessionView<H>, b: SessionView<H>)
    requires
        a.dialer != b.dialer || a.nonce != b.nonce,
    ensures
        session_before(a, b) != session_before(b, a),
{
    lemma_not_both(a.dialer, b.dialer);
    lemma_not_both(a.nonce, b.nonce);
    crate::octets::lemma_bytes_less_total(a.dialer, b.dialer);
    crate::octets::lemma_bytes_less_total(a.nonce, b.nonce);
}

// Subscriptions of this endpoint

/// What a session takes of the memory for metadata: for its certificate, and for the peer.
pub open spec fn session_cost<H>(reg: SessionView<H>) -> (nat, nat) {
    (reg.cert.bytes.len() * 4 + 16384, reg.cert.bytes.len() + 4096)
}

/// What comes of taking up a session, where `reserved` says whether what it takes could be set aside.
pub open spec fn registered<H>(
    v: OwnerView<H>,
    peer: Seq<u8>,
    reg: SessionView<H>,
    reserved: Result<(), Error>,
    clock: Option<u64>,
    now: u128,
) -> (OwnerView<H>, Result<bool, Error>) {
    match (session_review(v, peer, reg, clock), reserved) {
        (Err(e), _) => (v, Err(e)),
        (Ok(false), _) => (v, Ok(false)),
        (Ok(true), Err(e)) => (v, Err(e)),
        (Ok(true), Ok(_)) => (with_session(v, peer, reg, now), Ok(true)),
    }
}

/// What a subscription takes of the memory for metadata, where one place in its queue takes `place`.
pub open spec fn subscription_cost(c: ConfigView, place: nat) -> nat {
    2048 + c.max_peers * 128 + c.subscription_messages * place
}

/// What comes of subscribing, where `reserved` says whether what it takes could be set aside.
pub open spec fn subscribed<H>(
    v: OwnerView<H>,
    topic: Seq<char>,
    mode: DeliveryMode,
    id: Seq<u8>,
    reserved: Result<H, Error>,
    clock: Option<u64>,
) -> (OwnerView<H>, Result<(), Error>) {
    match (subscription_review(v, topic, clock), reserved) {
        (Err(e), _) => (v, Err(e)),
        (Ok(_), Err(e)) => (v, Err(e)),
        (Ok(_), Ok(held)) => (with_subscription(v, topic, id, mode, held), Ok(())),
    }
}

/// Peers that are each to be told one thing more.
pub open spec fn everyone_told<H>(m: Map<Seq<u8>, PeerView<H>>, c: ControlView) -> Map<
    Seq<u8>,
    PeerView<H>,
> {
    mapped(m, |id: Seq<u8>, p: PeerView<H>| told(p, c))
}

/// Whether a certificate allows no more than `n` subscriptions.
pub open spec fn subscriptions_used_up(limits: CertificateLimits, n: nat) -> bool {
    limits.max_subscriptions != 0 && n >= limits.max_subscriptions
}

/// Whether a certificate allows no payload of `n` bytes.
pub open spec fn payload_too_large(limits: CertificateLimits, n: nat) -> bool {
    limits.max_payload != 0 && n > limits.max_payload
}

/// Whether a topic can be subscribed to, or why not.
pub open spec fn subscription_review<H>(
    v: OwnerView<H>,
    topic: Seq<char>,
    clock: Option<u64>,
) -> Result<
    (),
    Error,
> {
    match valid_time(v, clock) {
        Err(e) => Err(e),
        Ok(_) => if v.drain is Some {
            Err(Error::ShuttingDown)
        } else if !claims_allow(v.cert.claims, topic, false) {
            Err(Error::Unauthorized)
        } else if v.subscriptions.contains_key(topic) {
            Err(Error::AlreadySubscribed)
        } else if v.subscriptions.dom().len() >= v.config.max_topics || subscriptions_used_up(
            v.cert.claims.limits,
            v.subscriptions.dom().len(),
        ) {
            Err(Error::QueueFull)
        } else {
            Ok(())
        },
    }
}

/// The state after a topic is subscribed to.
pub open spec fn with_subscription<H>(
    v: OwnerView<H>,
    topic: Seq<char>,
    id: Seq<u8>,
    mode: DeliveryMode,
    held: H,
) -> OwnerView<H> {
    OwnerView {
        peers: everyone_told(v.peers, ControlView::Subscribe { topic, sub: id, mode }),
        subscriptions: v.subscriptions.insert(topic, fresh_subscription(id, mode, held)),
        ..v
    }
}

impl<H> Owner<H> {
    /// Tells every peer the same.
    pub(crate) fn tell_everyone(&mut self, c: &Control)
        ensures
            final(self)@ == (OwnerView {
                peers: everyone_told(old(self)@.peers, c@),
                ..old(self)@
            }),
    {
        let ghost f = |id: Seq<u8>, p: PeerView<H>| told(p, c@);
        let ghost pairs = self.peers.pairs();
        let ghost start = self@;
        let mut i: usize = 0;
        proof {
            use_type_invariant(&self.peers);
            self.peers.lemma_pairs();
        }
        while i < self.peers.len()
            invariant
                i <= self.peers.pairs().len(),
                f == (|id: Seq<u8>, p: PeerView<H>| told(p, c@)),
                pairs.len() == self.peers.pairs().len(),
                forall|j: int|
                    0 <= j < i ==> #[trigger] self.peers.pairs()[j] == (
                        pairs[j].0,
                        f(pairs[j].0, pairs[j].1),
                    ),
                forall|j: int|
                    i <= j < pairs.len() ==> #[trigger] self.peers.pairs()[j] == pairs[j],
                self@ == (OwnerView { peers: self.peers@, ..start }),
            decreases pairs.len() - i,
        {
            let p = self.peers.value_mut(i);
            p.tell(c.clone());
            i = i + 1;
        }
        proof {
            use_type_invariant(&self.peers);
            self.peers.lemma_pairs();
            lemma_mapped::<EndpointId, PeerView<H>, PeerView<H>>(pairs, self.peers.pairs(), f);
        }
    }

    /// Whether a topic can be subscribed to, or why not.
    pub fn review_subscription(&self, topic: &Topic, clock: Option<u64>) -> (r: Result<(), Error>)
        ensures
            r == subscription_review(self@, topic@, clock),
    {
        self.local_valid(clock)?;
        if self.drain.is_some() {
            return Err(Error::ShuttingDown);
        }
        if !self.cert.allows(topic, false) {
            return Err(Error::Unauthorized);
        }
        if self.subscriptions.contains_key(topic) {
            return Err(Error::AlreadySubscribed);
        }
        let ceiling = self.cert.limits().max_subscriptions;
        let n: usize = self.subscriptions.len();
        if n >= self.config.max_topics || (ceiling != 0 && n as u64 >= ceiling) {
            return Err(Error::QueueFull);
        }
        Ok(())
    }

    /// What a subscription takes of the memory for metadata, where one place in its queue takes
    /// `place`.
    pub fn subscription_charge(&self, place: usize) -> (n: Option<usize>)
        ensures
            ({
                let total = 2048 + self@.config.max_peers * 128 + self@.config.subscription_messages
                    * place;
                n == if total <= usize::MAX {
                    Some(total as usize)
                } else {
                    None
                }
            }),
            n == if subscription_cost(self@.config, place as nat) <= usize::MAX {
                Some(subscription_cost(self@.config, place as nat) as usize)
            } else {
                None
            },
    {
        let queue = match self.config.subscription_messages.checked_mul(place) {
            Some(queue) => queue,
            None => {
                return None;
            },
        };
        let peers = match self.config.max_peers.checked_mul(128) {
            Some(peers) => peers,
            None => {
                proof {
                    assert(self.config.subscription_messages * place >= 0) by (nonlinear_arith);
                }
                return None;
            },
        };
        match queue.checked_add(peers) {
            None => None,
            Some(n) => n.checked_add(2048),
        }
    }

    /// Subscribes to a topic under the identifier `id`, if that is possible and what it takes
    /// could be set aside. Every peer is told.
    pub fn subscribe(
        &mut self,
        topic: Topic,
        mode: DeliveryMode,
        id: Id,
        reserved: Result<H, Error>,
        clock: Option<u64>,
    ) -> (r: Result<(), Error>)
        ensures
            match subscription_review(old(self)@, topic@, clock) {
                Err(e) => r == Err::<(), Error>(e) && final(self)@ == old(self)@,
                Ok(_) => match reserved {
                    Err(e) => r == Err::<(), Error>(e) && final(self)@ == old(self)@,
                    Ok(held) => r is Ok && final(self)@ == with_subscription(
                        old(self)@,
                        topic@,
                        id@,
                        mode,
                        held,
                    ),
                },
            },
            (final(self)@, r) == subscribed(old(self)@, topic@, mode, id@, reserved, clock),
    {
        self.review_subscription(&topic, clock)?;
        let held = reserved?;
        self.tell_everyone(&Control::Subscribe { topic: topic.clone(), sub: id, mode });
        self.subscriptions.insert(topic, LocalSubscription::new(id, mode, held));
        Ok(())
    }
}

} // verus!
