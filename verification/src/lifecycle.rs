//! The life of an endpoint: whom it connects to, how its authorization changes, and how it ends.
use crate::auth::{
    claims_allow, trust_apply, trust_verify, Certificate, CertificateView, RevocationSnapshot,
    TrustView, MAX_REVOKED,
};
use crate::crypto::{EndpointId, Id};
use crate::deliveries::{
    abandoned, DeliveriesView, DeliveryKey, DeliveryKeyView, Ended, EndedView, PendingView, RecordKey,
    RecordKeyView,
};
use crate::endpoint::{ConfigView, Metrics};
use crate::error::Error;
use crate::invite::{InviteView, PeerInvite};
use crate::message::Topic;
use crate::octets::same_bytes;
use crate::ordered::{kept, listing, OrderedMap};
use crate::owner::{
    control_views, everyone_told, key_views, own_id, valid_time, LocalSubscription, Owner,
    OwnerView, PeerView, Record, RecordState, RecordView, Reply, ReplyView, SubscriptionView,
};
use crate::upkeep::{id_list, without_peers};
use crate::wire::{Control, ControlView};
use vstd::prelude::*;

verus! {

// Connecting

/// Whether an endpoint is to be dialed, or why it cannot be: `Ok(false)` where it is connected
/// already.
pub open spec fn dial_review<H>(
    v: OwnerView<H>,
    i: InviteView,
    clock: Option<u64>,
) -> Result<bool, Error> {
    match valid_time(v, clock) {
        Err(e) => Err(e),
        Ok(_) => if v.drain is Some {
            Err(Error::ShuttingDown)
        } else if i.realm_id != v.config.trust.realm || i.authority != v.config.trust.root || i.host
            == own_id(v) {
            Err(Error::Unauthorized)
        } else {
            Ok(!v.peers.contains_key(i.host))
        },
    }
}

/// How many connections have come in during the present second, with one more at `now`, and when
/// that second began.
pub open spec fn attempt_counted<H>(v: OwnerView<H>, now: u128) -> OwnerView<H> {
    if now >= v.window + 1_000_000_000 {
        OwnerView { window: now, attempts: 1, ..v }
    } else {
        OwnerView {
            attempts: if v.attempts == usize::MAX {
                usize::MAX
            } else {
                (v.attempts + 1) as usize
            },
            ..v
        }
    }
}

impl<H> Owner<H> {
    /// Whether the endpoint of a contact is to be dialed, or why it cannot be.
    pub fn review_dial(&self, invite: &PeerInvite, clock: Option<u64>) -> (r: Result<bool, Error>)
        ensures
            r == dial_review(self@, invite@, clock),
    {
        self.local_valid(clock)?;
        if self.drain.is_some() {
            return Err(Error::ShuttingDown);
        }
        if !same_bytes(&invite.realm_id, &self.config.trust.realm_id()) || !invite.authority.same(
            &self.config.trust.root(),
        ) || invite.host.same(&self.endpoint_id()) {
            return Err(Error::Unauthorized);
        }
        Ok(!self.peers.contains_key(&invite.host))
    }

    /// Counts a connection that comes in. Beyond four a second for each peer that there may be,
    /// connections are turned away.
    pub fn count_attempt(&mut self, now: u128) -> (accepted: bool)
        ensures
            final(self)@ == attempt_counted(old(self)@, now),
            accepted == (final(self)@.attempts <= final(self)@.config.max_peers * 4),
            accepted == attempt_accepted(old(self)@, now),
    {
        if now >= self.window && now - self.window >= 1_000_000_000 {
            self.window = now;
            self.attempts = 0;
        }
        self.attempts = if self.attempts == usize::MAX {
            usize::MAX
        } else {
            self.attempts + 1
        };
        self.attempts as u128 <= self.config.max_peers as u128 * 4
    }
}

// Authorization

/// Whether a connection that comes in is let in, by how many have come in this second.
pub open spec fn attempt_accepted<H>(v: OwnerView<H>, now: u128) -> bool {
    attempt_counted(v, now).attempts <= v.config.max_peers * 4
}

/// What comes of acting under another certificate, where `reserved` says whether what it takes could
/// be set aside.
pub open spec fn renewal<H>(
    v: OwnerView<H>,
    c: CertificateView,
    reserved: Result<(), Error>,
    clock: Option<u64>,
    now: u128,
) -> (OwnerView<H>, Result<(), Error>) {
    match (renewal_review(v, c, clock), reserved) {
        (Err(e), _) => (v, Err(e)),
        (Ok(_), Err(e)) => (v, Err(e)),
        (Ok(_), Ok(_)) => (renewed(v, c, now), Ok(())),
    }
}

/// What comes of denying a certificate.
pub open spec fn denied<H>(v: OwnerView<H>, id: Seq<u8>) -> (OwnerView<H>, Result<bool, Error>) {
    let t = v.config.trust;
    if t.revoked.len() >= MAX_REVOKED && !t.revoked.contains(id) {
        (v, Err(Error::QueueFull))
    } else {
        (
            trusting(v, TrustView { revoked: t.revoked.insert(id), ..t }),
            Ok(!t.revoked.contains(id)),
        )
    }
}

/// What comes of a signed list of revoked certificates.
pub open spec fn revoked_by<H>(v: OwnerView<H>, snapshot: Seq<u8>, clock: Option<u64>) -> (
    OwnerView<H>,
    Result<usize, Error>,
) {
    match clock {
        None => (v, Err(Error::Clock)),
        Some(t) => match trust_apply(v.config.trust, snapshot, t) {
            Err(e) => (v, Err(e)),
            Ok(trust) => (
                trusting(v, trust),
                Ok((trust.revoked.len() - v.config.trust.revoked.len()) as usize),
            ),
        },
    }
}

/// What comes of beginning to shut down.
pub open spec fn shut_down<H>(v: OwnerView<H>, deadline: u128) -> (
    OwnerView<H>,
    Result<(), Error>,
) {
    if v.drain is Some {
        (v, Err(Error::ShuttingDown))
    } else {
        (draining(v, deadline), Ok(()))
    }
}

/// All peers, in order.
pub open spec fn all_peers<H>(v: OwnerView<H>) -> Seq<Seq<u8>> {
    Seq::new(
        listing::<EndpointId, PeerView<H>>(v.peers).len(),
        |i: int| listing::<EndpointId, PeerView<H>>(v.peers)[i].0,
    )
}

/// The state after this endpoint acts under another certificate: it has no peers, and keeps the
/// subscriptions that the certificate allows.
pub open spec fn renewed<H>(v: OwnerView<H>, c: CertificateView, now: u128) -> OwnerView<H> {
    let w = without_peers(OwnerView { cert: c, ..v }, all_peers(v), now);
    OwnerView {
        subscriptions: kept(
            w.subscriptions,
            |topic: Seq<char>, s: SubscriptionView<H>| claims_allow(c.claims, topic, false),
        ),
        ..w
    }
}

/// Whether this endpoint can act under a certificate, or why not.
pub open spec fn renewal_review<H>(
    v: OwnerView<H>,
    c: CertificateView,
    clock: Option<u64>,
) -> Result<
    (),
    Error,
> {
    if v.drain is Some {
        Err(Error::ShuttingDown)
    } else {
        match clock {
            None => Err(Error::Clock),
            Some(t) => trust_verify(v.config.trust, c, own_id(v), t),
        }
    }
}

/// The state with other trust.
pub open spec fn trusting<H>(v: OwnerView<H>, t: TrustView) -> OwnerView<H> {
    OwnerView { config: ConfigView { trust: t, ..v.config }, ..v }
}

impl<H> Owner<H> {
    /// Whether this endpoint can act under a certificate, or why not.
    pub fn review_renewal(&self, certificate: &Certificate, clock: Option<u64>) -> (r: Result<
        (),
        Error,
    >)
        ensures
            r == renewal_review(self@, certificate@, clock),
    {
        if self.drain.is_some() {
            return Err(Error::ShuttingDown);
        }
        match clock {
            None => Err(Error::Clock),
            Some(t) => self.config.trust.verify(certificate, self.endpoint_id(), t),
        }
    }

    /// Acts under another certificate from now on, if it can and what it takes could be set aside.
    /// Every peer is let go, to come back and see it.
    pub fn renew(
        &mut self,
        certificate: Certificate,
        reserved: Result<(), Error>,
        clock: Option<u64>,
        now: u128,
    ) -> (r: Result<(), Error>)
        ensures
            match renewal_review(old(self)@, certificate@, clock) {
                Err(e) => r == Err::<(), Error>(e) && final(self)@ == old(self)@,
                Ok(_) => match reserved {
                    Err(e) => r == Err::<(), Error>(e) && final(self)@ == old(self)@,
                    Ok(_) => r is Ok && final(self)@ == renewed(old(self)@, certificate@, now),
                },
            },
            (final(self)@, r) == renewal(old(self)@, certificate@, reserved, clock, now),
    {
        self.review_renewal(&certificate, clock)?;
        reserved?;
        let ghost start = self@;
        self.cert = certificate;
        let ghost relicensed = self@;
        let ghost ids = all_peers(start);
        let ghost pairs = self.peers.pairs();
        let mut list: Vec<EndpointId> = Vec::new();
        proof {
            use_type_invariant(&self.peers);
            self.peers.lemma_pairs();
            assert(id_list(list@) =~= ids.take(0));
        }
        let mut i: usize = 0;
        while i < self.peers.len()
            invariant
                i <= self.peers.pairs().len(),
                self@ == relicensed,
                ids == all_peers(relicensed),
                ids.len() == self.peers.pairs().len(),
                self.peers.pairs() == listing::<EndpointId, PeerView<H>>(self@.peers),
                id_list(list@) == ids.take(i as int),
            decreases self.peers.pairs().len() - i,
        {
            let ghost before = list@;
            list.push(*self.peers.key_at(i));
            proof {
                assert(id_list(list@) =~= id_list(before).push(ids[i as int]));
                assert(ids.take(i + 1) =~= ids.take(i as int).push(ids[i as int]));
            }
            i = i + 1;
        }
        assert(ids.take(i as int) =~= ids);
        self.remove_peers(&list, now);
        let cert = &self.cert;
        let claims: Ghost<CertificateView> = Ghost(cert@);
        let keep = |topic: &Topic, s: &LocalSubscription<H>| -> (b: bool)
            ensures
                b == claims_allow(claims@.claims, topic@, false),
            { cert.allows(topic, false) };
        proof {
            lemma_without_peers_cert(relicensed, ids, now);
        }
        self.subscriptions.retain(
            keep,
            Ghost(
                |topic: Seq<char>, s: SubscriptionView<H>|
                    claims_allow(claims@.claims, topic, false),
            ),
        );
        Ok(())
    }

    /// Denies a certificate from now on. The result tells whether it was not denied before.
    pub fn deny_certificate(&mut self, id: Id) -> (r: Result<bool, Error>)
        ensures
            ({
                let t = old(self)@.config.trust;
                match r {
                    Ok(added) => (t.revoked.len() < MAX_REVOKED || t.revoked.contains(id@))
                        && added == !t.revoked.contains(id@) && final(self)@ == trusting(
                        old(self)@,
                        TrustView { revoked: t.revoked.insert(id@), ..t },
                    ),
                    Err(e) => e == Error::QueueFull && t.revoked.len() >= MAX_REVOKED
                        && !t.revoked.contains(id@) && final(self)@ == old(self)@,
                }
            }),
            (final(self)@, r) == denied(old(self)@, id@),
    {
        let before: usize = self.config.trust.revoked_count();
        let ghost t = self.config.trust@;
        self.config.trust.deny_certificate(id)?;
        let after: usize = self.config.trust.revoked_count();
        proof {
            if t.revoked.contains(id@) {
                assert(t.revoked.insert(id@) =~= t.revoked);
            }
        }
        Ok(after > before)
    }

    /// Applies a signed list of revoked certificates. The result tells how many more are revoked
    /// than before.
    pub fn apply_revocations(&mut self, snapshot: &RevocationSnapshot, clock: Option<u64>) -> (r:
        Result<usize, Error>)
        ensures
            match clock {
                None => r == Err::<usize, Error>(Error::Clock) && final(self)@ == old(self)@,
                Some(t) => match trust_apply(old(self)@.config.trust, snapshot@, t) {
                    Err(e) => r == Err::<usize, Error>(e) && final(self)@ == old(self)@,
                    Ok(trust) => r is Ok && r->Ok_0 == trust.revoked.len()
                        - old(self)@.config.trust.revoked.len() && final(self)@ == trusting(
                        old(self)@,
                        trust,
                    ),
                },
            },
            (final(self)@, r) == revoked_by(old(self)@, snapshot@, clock),
    {
        match clock {
            None => Err(Error::Clock),
            Some(t) => {
                let before: usize = self.config.trust.revoked_count();
                let ghost old_trust = self.config.trust@;
                self.config.trust.apply_revocations(snapshot, t)?;
                let after: usize = self.config.trust.revoked_count();
                proof {
                    crate::auth::law_revocations_cumulative(old_trust, snapshot@, t);
                    vstd::set_lib::lemma_len_subset(old_trust.revoked, self.config.trust@.revoked);
                }
                Ok(after - before)
            },
        }
    }
}

proof fn lemma_without_peers_cert<H>(v: OwnerView<H>, ids: Seq<Seq<u8>>, now: u128)
    ensures
        without_peers(v, ids, now).cert == v.cert,
    decreases ids.len(),
{
    if ids.len() > 0 {
        lemma_without_peers_cert(v, ids.drop_last(), now);
    }
}

// Counting

/// How many grants are outstanding at the subscriptions on a list.
pub open spec fn grants_total<H>(s: Seq<(Seq<char>, SubscriptionView<H>)>) -> nat
    decreases s.len(),
{
    if s.len() == 0 {
        0
    } else {
        grants_total(s.drop_last()) + s.last().1.grants.dom().len()
    }
}

/// How much memory is in use, and has been at most.
#[derive(Clone, Copy, Debug, PartialEq, Eq)]
pub struct MemoryUse {
    pub payload: usize,
    pub payload_peak: usize,
    pub metadata: usize,
    pub metadata_peak: usize,
}

/// What an endpoint has counted.
pub open spec fn metrics_of<H>(v: OwnerView<H>, memory: MemoryUse) -> Metrics {
    let grants = grants_total(listing::<Topic, SubscriptionView<H>>(v.subscriptions));
    Metrics {
        peers: v.peers.dom().len() as usize,
        pending_deliveries: v.deliveries.pending.dom().len() as usize,
        deduplication_records: v.records.dom().len() as usize,
        terminal_receipts: v.deliveries.closed.dom().len() as usize,
        resident_payload_bytes: memory.payload,
        metadata_bytes: memory.metadata,
        peak_payload_bytes: memory.payload_peak,
        peak_metadata_bytes: memory.metadata_peak,
        outstanding_credits: if grants > usize::MAX {
            usize::MAX
        } else {
            grants as usize
        },
        ..v.stats
    }
}

impl<H> Owner<H> {
    fn outstanding(&self) -> (n: usize)
        ensures
            ({
                let grants = grants_total(
                    listing::<Topic, SubscriptionView<H>>(self@.subscriptions),
                );
                n == if grants > usize::MAX {
                    usize::MAX
                } else {
                    grants as usize
                }
            }),
    {
        let ghost all = self.subscriptions.pairs();
        proof {
            use_type_invariant(&self.subscriptions);
            self.subscriptions.lemma_pairs();
            assert(all.take(0) =~= Seq::empty());
        }
        let mut n: usize = 0;
        let mut i: usize = 0;
        while i < self.subscriptions.len()
            invariant
                i <= self.subscriptions.pairs().len(),
                all == self.subscriptions.pairs(),
                n == if grants_total(all.take(i as int)) > usize::MAX {
                    usize::MAX
                } else {
                    grants_total(all.take(i as int)) as usize
                },
            decreases all.len() - i,
        {
            proof {
                let next = all.take(i + 1);
                assert(next.drop_last() =~= all.take(i as int));
                assert(next.last() == all[i as int]);
            }
            let more: usize = self.subscriptions.value_at(i).grants.len();
            n = match n.checked_add(more) {
                Some(n) => n,
                None => usize::MAX,
            };
            i = i + 1;
        }
        assert(all.take(i as int) =~= all);
        n
    }

    /// What this endpoint has counted.
    pub fn metrics(&self, memory: MemoryUse) -> (m: Metrics)
        ensures
            m == metrics_of(self@, memory),
    {
        Metrics {
            peers: self.peers.len(),
            pending_deliveries: self.deliveries.pending.len(),
            deduplication_records: self.records.len(),
            terminal_receipts: self.deliveries.closed.len(),
            resident_payload_bytes: memory.payload,
            metadata_bytes: memory.metadata,
            peak_payload_bytes: memory.payload_peak,
            peak_metadata_bytes: memory.metadata_peak,
            outstanding_credits: self.outstanding(),
            ..self.stats
        }
    }
}

// The end

/// The state after the endpoint begins to shut down, with `deadline` the moment until which it
/// waits for its deliveries.
pub open spec fn draining<H>(v: OwnerView<H>, deadline: u128) -> OwnerView<H> {
    OwnerView {
        drain: Some(deadline),
        peers: everyone_told(v.peers, ControlView::Goodbye),
        ..v
    }
}

/// Whether an endpoint that shuts down has nothing left to wait for.
pub open spec fn is_drained<H>(v: OwnerView<H>, now: u128) -> bool {
    match v.drain {
        None => false,
        Some(deadline) => v.deliveries.pending == Map::<DeliveryKeyView, PendingView<H>>::empty()
            || now >= deadline,
    }
}

/// What the handler of a message is told because the endpoint ends.
pub open spec fn called_off<H>(r: RecordView<H>) -> ReplyView<H> {
    ReplyView { result: Err(Error::ShuttingDown), waiter: r.waiter }
}

/// What handlers are told once nothing is remembered any more.
pub open spec fn all_replied<H>(
    records: Map<RecordKeyView, RecordView<H>>,
    replies: Map<RecordKeyView, ReplyView<H>>,
) -> Map<RecordKeyView, ReplyView<H>> {
    Map::new(
        |k: RecordKeyView|
            replies.contains_key(k) || (records.contains_key(k) && records[k].state is Processing),
        |k: RecordKeyView|
            if records.contains_key(k) && records[k].state is Processing {
                called_off(records[k])
            } else {
                replies[k]
            },
    )
}

/// The state of an endpoint that has ended. Who still waits for an outcome or a reply is told that
/// there will be none.
pub open spec fn ended<H>(v: OwnerView<H>) -> OwnerView<H> {
    OwnerView {
        peers: Map::empty(),
        subscriptions: Map::empty(),
        deliveries: abandoned(v.deliveries),
        records: Map::empty(),
        replies: all_replied(v.records, v.replies),
        stats: Metrics {
            unfinished_on_shutdown: v.deliveries.pending.dom().len() as usize,
            ..v.stats
        },
        ..v
    }
}

/// Forgets all messages that came in, and notes that no verdict of a handler counts any more.
fn abandon_records<H>(
    records: &mut OrderedMap<RecordKey, Record<H>>,
    replies: &mut OrderedMap<RecordKey, Reply<H>>,
)
    ensures
        final(records)@ == Map::<RecordKeyView, RecordView<H>>::empty(),
        final(replies)@ == all_replied(old(records)@, old(replies)@),
{
    let ghost start = records@;
    let ghost told = replies@;
    while !records.is_empty()
        invariant
            start == old(records)@,
            told == old(replies)@,
            forall|k: RecordKeyView| #[trigger]
                records@.contains_key(k) ==> start.contains_key(k) && records@[k] == start[k],
            forall|k: RecordKeyView| #[trigger]
                replies@.contains_key(k) == (told.contains_key(k) || (start.contains_key(k)
                    && !records@.contains_key(k) && start[k].state is Processing)),
            forall|k: RecordKeyView| #[trigger]
                replies@.contains_key(k) ==> replies@[k] == if (start.contains_key(k)
                    && !records@.contains_key(k) && start[k].state is Processing) {
                    called_off(start[k])
                } else {
                    told[k]
                },
        decreases records.pairs().len(),
    {
        proof {
            use_type_invariant(&*records);
            records.lemma_pairs();
        }
        let ghost before = records@;
        let ghost told_before = replies@;
        let (key, r) = records.remove_at(0);
        assert(before.contains_key(key@));
        let processing = match r.state {
            RecordState::Processing(_) => true,
            _ => false,
        };
        if processing {
            replies.insert(key, Reply { result: Err(Error::ShuttingDown), waiter: r.waiter });
        }
        assert forall|k: RecordKeyView| #[trigger] records@.contains_key(k) implies start.contains_key(
            k,
        ) && records@[k] == start[k] by {
            assert(before.contains_key(k));
        }
        assert forall|k: RecordKeyView| #[trigger]
            replies@.contains_key(k) == (told.contains_key(k) || (start.contains_key(k)
                && !records@.contains_key(k) && start[k].state is Processing)) by {
            assert(told_before.contains_key(k) == (told.contains_key(k) || (start.contains_key(k)
                && !before.contains_key(k) && start[k].state is Processing)));
        }
        assert forall|k: RecordKeyView| #[trigger] replies@.contains_key(k) implies replies@[k] == if (
        start.contains_key(k) && !records@.contains_key(k) && start[k].state is Processing) {
            called_off(start[k])
        } else {
            told[k]
        } by {
            assert(told_before.contains_key(k) == (told.contains_key(k) || (start.contains_key(k)
                && !before.contains_key(k) && start[k].state is Processing)));
        }
    }
    assert(replies@ =~= all_replied(start, told));
}

impl<H> Owner<H> {
    /// Begins to shut down: nothing new is taken on, and every peer is told.
    pub fn shutdown(&mut self, deadline: u128) -> (r: Result<(), Error>)
        ensures
            if old(self)@.drain is Some {
                r == Err::<(), Error>(Error::ShuttingDown) && final(self)@ == old(self)@
            } else {
                r is Ok && final(self)@ == draining(old(self)@, deadline)
            },
            (final(self)@, r) == shut_down(old(self)@, deadline),
    {
        if self.drain.is_some() {
            return Err(Error::ShuttingDown);
        }
        self.drain = Some(deadline);
        self.tell_everyone(&Control::Goodbye);
        Ok(())
    }

    /// Whether an endpoint that shuts down has nothing left to wait for.
    pub fn drained(&self, now: u128) -> (r: bool)
        ensures
            r == is_drained(self@, now),
    {
        match self.drain {
            None => false,
            Some(deadline) => self.deliveries.pending.is_empty() || now >= deadline,
        }
    }

    /// Ends the endpoint.
    pub fn finish(&mut self)
        ensures
            final(self)@ == ended(old(self)@),
    {
        self.stats.unfinished_on_shutdown = self.deliveries.pending.len();
        self.deliveries.abandon();
        abandon_records(&mut self.records, &mut self.replies);
        self.peers = OrderedMap::new();
        self.subscriptions = OrderedMap::new();
        assert(self@ =~= ended(old(self)@));
    }
}

// What the surroundings take care of

/// What a peer is to be told, and the endpoint once that was taken out.
pub open spec fn outbox_taken<H>(v: OwnerView<H>, peer: Seq<u8>) -> (
    OwnerView<H>,
    Seq<ControlView>,
) {
    if v.peers.contains_key(peer) {
        (
            OwnerView {
                peers: v.peers.insert(peer, PeerView { outbox: Seq::empty(), ..v.peers[peer] }),
                ..v
            },
            v.peers[peer].outbox,
        )
    } else {
        (v, Seq::empty())
    }
}

/// The deliveries that are to be written, and the endpoint once they were taken out.
pub open spec fn writes_taken<H>(v: OwnerView<H>) -> (OwnerView<H>, Seq<DeliveryKeyView>) {
    (OwnerView { writes: Seq::empty(), ..v }, v.writes)
}

/// The outcomes that publishers are to be told, and the endpoint once they were taken out.
pub open spec fn endings_taken<H>(v: OwnerView<H>) -> (
    OwnerView<H>,
    Map<DeliveryKeyView, EndedView<H>>,
) {
    (
        OwnerView {
            deliveries: DeliveriesView { ended: Map::empty(), ..v.deliveries },
            ..v
        },
        v.deliveries.ended,
    )
}

/// What handlers are to be told, and the endpoint once that was taken out.
pub open spec fn replies_taken<H>(v: OwnerView<H>) -> (
    OwnerView<H>,
    Map<RecordKeyView, ReplyView<H>>,
) {
    (OwnerView { replies: Map::empty(), ..v }, v.replies)
}

impl<H> Owner<H> {
    /// Takes out what a peer is to be told.
    pub fn take_outbox(&mut self, peer: &EndpointId) -> (outbox: Vec<Control>)
        ensures
            match old(self)@.peers.contains_key(peer@) {
                true => control_views(outbox@) == old(self)@.peers[peer@].outbox && final(self)@
                    == (OwnerView {
                    peers: old(self)@.peers.insert(
                        peer@,
                        PeerView { outbox: Seq::empty(), ..old(self)@.peers[peer@] },
                    ),
                    ..old(self)@
                }),
                false => outbox@.len() == 0 && final(self)@ == old(self)@,
            },
            (final(self)@, control_views(outbox@)) == outbox_taken(old(self)@, peer@),
    {
        let mut outbox: Vec<Control> = Vec::new();
        if let Some(p) = self.peers.get_mut(peer) {
            std::mem::swap(&mut outbox, &mut p.outbox);
            assert(control_views(p.outbox@) =~= Seq::empty());
        }
        outbox
    }

    /// Takes out the deliveries that are to be written.
    pub fn take_writes(&mut self) -> (writes: Vec<DeliveryKey>)
        ensures
            key_views(writes@) == old(self)@.writes,
            final(self)@ == (OwnerView { writes: Seq::empty(), ..old(self)@ }),
            (final(self)@, key_views(writes@)) == writes_taken(old(self)@),
    {
        let mut writes: Vec<DeliveryKey> = Vec::new();
        std::mem::swap(&mut writes, &mut self.writes);
        assert(key_views(self.writes@) =~= Seq::empty());
        writes
    }

    /// Takes out the outcomes that publishers are to be told.
    pub fn take_ended(&mut self) -> (all: OrderedMap<DeliveryKey, Ended<H>>)
        ensures
            all@ == old(self)@.deliveries.ended,
            final(self)@ == (OwnerView {
                deliveries: DeliveriesView { ended: Map::empty(), ..old(self)@.deliveries },
                ..old(self)@
            }),
            (final(self)@, all@) == endings_taken(old(self)@),
    {
        let mut all: OrderedMap<DeliveryKey, Ended<H>> = OrderedMap::new();
        std::mem::swap(&mut all, &mut self.deliveries.ended);
        all
    }

    /// Takes out what handlers are to be told.
    pub fn take_replies(&mut self) -> (all: OrderedMap<RecordKey, Reply<H>>)
        ensures
            all@ == old(self)@.replies,
            final(self)@ == (OwnerView { replies: Map::empty(), ..old(self)@ }),
            (final(self)@, all@) == replies_taken(old(self)@),
    {
        let mut all: OrderedMap<RecordKey, Reply<H>> = OrderedMap::new();
        std::mem::swap(&mut all, &mut self.replies);
        all
    }
}

} // verus!
