//! Room for frames that peers want to send: who is granted it, and in what order.
use crate::allowances::{
    after_funding, fresh_allowance, funding_refusal, permits_for, sources, AllowanceView,
    Allowances, CreditCharge, CreditPermits, CreditPermitsView, FundsView,
};
use crate::buffer::{Budget, BufferPool};
use crate::crypto::{random_jitter, EndpointId};
use crate::endpoint::{FRAME_OVERHEAD, LAST_MOMENT, PAYLOAD_OVERHEAD};
use crate::message::Topic;
use crate::ordered::{kept, listing};
use crate::outgoing::{delivery_list, scheduled};
use crate::owner::{
    told, valid_time, Credit, CreditView, Owner, OwnerView, PeerView, SubscriptionView,
};
use crate::upkeep::tidied;
use crate::wire::{Control, ControlView};
use vstd::prelude::*;

verus! {

// Who is next

/// The peers on a list that wait for room at a subscription and may be granted it.
pub open spec fn waiting_peers<H>(
    topic: Seq<char>,
    s: SubscriptionView<H>,
    d: Seq<(Seq<u8>, usize)>,
) -> Seq<(Seq<char>, Seq<u8>)>
    decreases d.len(),
{
    if d.len() == 0 {
        Seq::empty()
    } else {
        let before = waiting_peers(topic, s, d.drop_last());
        let peer = d.last().0;
        if s.confirmed.contains(peer) && !s.grants.contains_key(peer) {
            before.push((topic, peer))
        } else {
            before
        }
    }
}

/// The peers that wait for room at the subscriptions on a list and may be granted it.
pub open spec fn waiting<H>(s: Seq<(Seq<char>, SubscriptionView<H>)>) -> Seq<(Seq<char>, Seq<u8>)>
    decreases s.len(),
{
    if s.len() == 0 {
        Seq::empty()
    } else {
        waiting(s.drop_last()) + waiting_peers(
            s.last().0,
            s.last().1,
            listing::<EndpointId, usize>(s.last().1.demand),
        )
    }
}

/// A list that starts with its `k`-th item, with what stood before it at the end.
pub open spec fn rotated<T>(s: Seq<T>, k: int) -> Seq<T> {
    s.skip(k) + s.take(k)
}

/// Those who wait for room, in the order in which they are considered. Whoever is first changes
/// from one time to the next.
pub open spec fn queue<H>(v: OwnerView<H>, clock: Option<u64>) -> Seq<(Seq<char>, Seq<u8>)> {
    let all = waiting(listing::<Topic, SubscriptionView<H>>(v.subscriptions));
    if valid_time(v, clock) is Err || all.len() == 0 {
        Seq::empty()
    } else {
        rotated(all, v.cursor as int % all.len() as int)
    }
}

/// One more than `n`; a count that is full starts again.
pub open spec fn next_cursor(n: usize) -> usize {
    if n == usize::MAX {
        0
    } else {
        (n + 1) as usize
    }
}

/// The state after those who wait are listed.
pub open spec fn after_queue<H>(v: OwnerView<H>, clock: Option<u64>) -> OwnerView<H> {
    if queue(v, clock).len() == 0 {
        v
    } else {
        OwnerView { cursor: next_cursor(v.cursor), ..v }
    }
}

/// The views of a list of those who wait.
pub open spec fn waiting_views(s: Seq<(Topic, EndpointId)>) -> Seq<(Seq<char>, Seq<u8>)> {
    Seq::new(s.len(), |i: int| (s[i].0@, s[i].1@))
}

// What is granted

/// What a grant takes of the memory for metadata: for the record of the message.
pub const GRANT_METADATA: usize = 6144;

/// What a grant takes of the memory for metadata while the frame comes in.
pub const GRANT_TRANSIT: usize = 256;

/// The largest payload that a peer may send.
pub open spec fn largest_payload<H>(v: OwnerView<H>, p: PeerView<H>) -> nat {
    if v.config.max_payload <= p.reg.max_payload {
        v.config.max_payload
    } else {
        p.reg.max_payload as nat
    }
}

/// What must be set aside before room for a frame of a peer is granted; nothing can be, where the
/// peer or the subscription is not there.
pub open spec fn credit_needed<H>(v: OwnerView<H>, topic: Seq<char>, peer: Seq<u8>) -> Option<
    CreditCharge,
> {
    if !v.peers.contains_key(peer) || !v.subscriptions.contains_key(topic) {
        None
    } else {
        let n = largest_payload(v, v.peers[peer]);
        if n + FRAME_OVERHEAD > usize::MAX {
            None
        } else {
            Some(
                CreditCharge {
                    bytes: (n + FRAME_OVERHEAD) as usize,
                    payload: (n + PAYLOAD_OVERHEAD) as usize,
                    metadata: GRANT_METADATA,
                    transit: GRANT_TRANSIT,
                },
            )
        }
    }
}

/// The state after room for a frame is granted to a peer; `held` is what was set aside for it.
pub open spec fn with_grant<H>(
    v: OwnerView<H>,
    topic: Seq<char>,
    peer: Seq<u8>,
    held: H,
) -> OwnerView<H> {
    match credit_needed(v, topic, peer) {
        None => v,
        Some(charge) => {
            let s = v.subscriptions[topic];
            OwnerView {
                subscriptions: v.subscriptions.insert(
                    topic,
                    SubscriptionView {
                        demand: s.demand.remove(peer),
                        grants: s.grants.insert(peer, CreditView { bytes: charge.bytes, held }),
                        ..s
                    },
                ),
                peers: v.peers.insert(
                    peer,
                    told(
                        v.peers[peer],
                        ControlView::Credit { topic, sub: s.id, bytes: charge.bytes as u64 },
                    ),
                ),
                ..v
            }
        },
    }
}

/// The state after the first `n` of those who wait are considered, where `funds` is what could be
/// set aside for each, if it could be.
pub open spec fn granted_upto<H>(
    v: OwnerView<H>,
    q: Seq<(Seq<char>, Seq<u8>)>,
    funds: Seq<Option<H>>,
    n: nat,
) -> OwnerView<H>
    decreases n,
{
    if n == 0 {
        v
    } else {
        let w = granted_upto(v, q, funds, (n - 1) as nat);
        match funds[n - 1] {
            Some(held) => with_grant(w, q[n - 1].0, q[n - 1].1, held),
            None => w,
        }
    }
}

/// The state after all of those who wait are considered.
pub open spec fn granted<H>(
    v: OwnerView<H>,
    clock: Option<u64>,
    funds: Seq<Option<H>>,
) -> OwnerView<H> {
    granted_upto(after_queue(v, clock), queue(v, clock), funds, queue(v, clock).len())
}

/// For whom something could be set aside.
pub open spec fn funded<H>(funds: Seq<Option<H>>) -> Seq<bool> {
    Seq::new(funds.len(), |i: int| funds[i] is Some)
}

/// What is left after room was to be set aside for the first `n` of those who wait: for each of them
/// what room for a frame takes, and nothing where that cannot be said.
pub open spec fn funds_upto<H>(
    v: OwnerView<H>,
    q: Seq<(Seq<char>, Seq<u8>)>,
    funds: Seq<Option<H>>,
    f: FundsView,
    n: nat,
) -> FundsView
    decreases n,
{
    if n == 0 {
        f
    } else {
        let l = (n - 1) as nat;
        let g = funds_upto(v, q, funds, f, l);
        match credit_needed(granted_upto(v, q, funds, l), q[l as int].0, q[l as int].1) {
            None => g,
            Some(charge) => after_funding(g, q[l as int].0, charge),
        }
    }
}

/// What is set aside for the `n`-th of those who wait, if it can be.
pub open spec fn permits_at<H>(
    v: OwnerView<H>,
    q: Seq<(Seq<char>, Seq<u8>)>,
    funds: Seq<Option<H>>,
    f: FundsView,
    n: nat,
) -> Option<CreditPermitsView> {
    let topic = q[n as int].0;
    let g = funds_upto(v, q, funds, f, n);
    match credit_needed(granted_upto(v, q, funds, n), topic, q[n as int].1) {
        None => None,
        Some(charge) => if funding_refusal(g, topic, charge) is None {
            Some(permits_for(sources(g, topic), charge))
        } else {
            None
        },
    }
}

/// Whether `held` is what `attach` makes of what was set aside for room at a subscription.
pub open spec fn attached<H, F: Fn(&Topic, CreditPermits) -> H>(
    attach: F,
    topic: Seq<char>,
    permits: CreditPermitsView,
    held: H,
) -> bool {
    exists|t: &Topic, p: CreditPermits|
        t@ == topic && p@ == permits && #[trigger] attach.ensures((t, p), held)
}

/// Whether `held` is what is attached to the room for the `n`-th of those who wait, if it gets any.
pub open spec fn fund_of<H, F: Fn(&Topic, CreditPermits) -> H>(
    attach: F,
    topic: Seq<char>,
    permits: Option<CreditPermitsView>,
    held: Option<H>,
) -> bool {
    match permits {
        None => held is None,
        Some(permits) => held is Some && attached(attach, topic, permits, held->0),
    }
}

/// Whether one state comes from another by considering all of those who wait: `f` is what room is
/// set aside out of, `g` what is left of it, and `funds` what is attached to the room that each gets,
/// if it gets any.
pub open spec fn considered_all<H, F: Fn(&Topic, CreditPermits) -> H>(
    v: OwnerView<H>,
    w: OwnerView<H>,
    clock: Option<u64>,
    f: FundsView,
    g: FundsView,
    attach: F,
    funds: Seq<Option<H>>,
) -> bool {
    let q = queue(v, clock);
    let u = after_queue(v, clock);
    &&& funds.len() == q.len()
    &&& w == granted(v, clock, funds)
    &&& g == funds_upto(u, q, funds, f, q.len())
    &&& forall|i: int|
        0 <= i < q.len() ==> fund_of(
            attach,
            q[i].0,
            permits_at(u, q, funds, f, i as nat),
            #[trigger] funds[i],
        )
}

impl<H> Owner<H> {
    fn list_waiting(&self) -> (q: Vec<(Topic, EndpointId)>)
        ensures
            waiting_views(q@) == waiting(
                listing::<Topic, SubscriptionView<H>>(self@.subscriptions),
            ),
    {
        let mut q: Vec<(Topic, EndpointId)> = Vec::new();
        let ghost all = self.subscriptions.pairs();
        proof {
            use_type_invariant(&self.subscriptions);
            self.subscriptions.lemma_pairs();
            assert(all.take(0) =~= Seq::empty());
            assert(waiting_views(q@) =~= Seq::empty());
        }
        let mut i: usize = 0;
        while i < self.subscriptions.len()
            invariant
                i <= self.subscriptions.pairs().len(),
                all == self.subscriptions.pairs(),
                waiting_views(q@) == waiting(all.take(i as int)),
            decreases all.len() - i,
        {
            let topic = self.subscriptions.key_at(i);
            let s = self.subscriptions.value_at(i);
            let ghost before = waiting_views(q@);
            let ghost d = s.demand.pairs();
            proof {
                let next = all.take(i + 1);
                assert(next.drop_last() =~= all.take(i as int));
                assert(next.last() == all[i as int]);
                use_type_invariant(&s.demand);
                s.demand.lemma_pairs();
                assert(d.take(0) =~= Seq::empty());
                assert(before + waiting_peers(topic@, s@, d.take(0)) =~= before);
            }
            let mut j: usize = 0;
            while j < s.demand.len()
                invariant
                    j <= s.demand.pairs().len(),
                    d == s.demand.pairs(),
                    waiting_views(q@) == before + waiting_peers(topic@, s@, d.take(j as int)),
                decreases d.len() - j,
            {
                let peer = s.demand.key_at(j);
                let ghost had = q@;
                proof {
                    let next = d.take(j + 1);
                    assert(next.drop_last() =~= d.take(j as int));
                    assert(next.last() == d[j as int]);
                }
                if s.confirmed.contains_key(peer) && !s.grants.contains_key(peer) {
                    q.push((topic.clone(), *peer));
                    assert(waiting_views(q@) =~= waiting_views(had).push((topic@, peer@)));
                    assert(before + waiting_peers(topic@, s@, d.take(j + 1)) =~= (before
                        + waiting_peers(topic@, s@, d.take(j as int))).push((topic@, peer@)));
                }
                j = j + 1;
            }
            assert(d.take(j as int) =~= d);
            i = i + 1;
        }
        assert(all.take(i as int) =~= all);
        q
    }

    /// Those who wait for room, in the order in which they are to be considered.
    pub fn credit_queue(&mut self, clock: Option<u64>) -> (q: Vec<(Topic, EndpointId)>)
        ensures
            waiting_views(q@) == queue(old(self)@, clock),
            final(self)@ == after_queue(old(self)@, clock),
    {
        let empty: Vec<(Topic, EndpointId)> = Vec::new();
        assert(waiting_views(empty@) =~= Seq::empty());
        if self.local_valid(clock).is_err() {
            return empty;
        }
        let all = self.list_waiting();
        if all.len() == 0 {
            return empty;
        }
        let ghost views = waiting_views(all@);
        let first: usize = self.cursor % all.len();
        self.cursor = if self.cursor == usize::MAX {
            0
        } else {
            self.cursor + 1
        };
        let mut front = all;
        let mut q = front.split_off(first);
        let ghost back = q@;
        q.append(&mut front);
        assert(waiting_views(q@) =~= rotated(views, first as int));
        q
    }

    /// What must be set aside before room for a frame of a peer is granted.
    pub fn credit_charge(&self, topic: &Topic, peer: &EndpointId) -> (r: Option<CreditCharge>)
        ensures
            r == credit_needed(self@, topic@, peer@),
    {
        let p = match self.peers.get(peer) {
            Some(p) => p,
            None => {
                return None;
            },
        };
        if !self.subscriptions.contains_key(topic) {
            return None;
        }
        let n: usize = if self.config.max_payload <= p.reg.max_payload {
            self.config.max_payload
        } else {
            p.reg.max_payload
        };
        match n.checked_add(FRAME_OVERHEAD) {
            None => None,
            Some(bytes) => Some(
                CreditCharge {
                    bytes,
                    payload: n + PAYLOAD_OVERHEAD,
                    metadata: GRANT_METADATA,
                    transit: GRANT_TRANSIT,
                },
            ),
        }
    }

    /// Grants a peer room for a frame; `held` is what was set aside for it.
    pub fn grant_credit(&mut self, topic: &Topic, peer: &EndpointId, held: H)
        ensures
            final(self)@ == with_grant(old(self)@, topic@, peer@, held),
    {
        let bytes = match self.credit_charge(topic, peer) {
            Some(charge) => charge.bytes,
            None => {
                return;
            },
        };
        if let Some(s) = self.subscriptions.get_mut(topic) {
            s.demand.remove(peer);
            s.grants.insert(*peer, Credit { bytes, held });
            let sub = s.id;
            if let Some(p) = self.peers.get_mut(peer) {
                p.tell(Control::Credit { topic: topic.clone(), sub, bytes });
            }
        }
    }

    /// Grants room to those who wait for it, as far as what is needed can be set aside. `attach`
    /// makes of what was set aside what is attached to a grant. The result tells who was granted
    /// room.
    pub fn grant_credits<F: Fn(&Topic, CreditPermits) -> H>(
        &mut self,
        clock: Option<u64>,
        allowances: &mut Allowances,
        metadata: &mut Budget,
        pool: &mut BufferPool,
        attach: F,
    ) -> (answers: Vec<bool>)
        requires
            old(allowances).wf(),
            old(metadata).wf(),
            old(pool).wf(),
            forall|t: &Topic, p: CreditPermits| #[trigger] attach.requires((t, p)),
        ensures
            final(allowances).wf(),
            final(metadata).wf(),
            final(pool).wf(),
            answers@.len() == queue(old(self)@, clock).len(),
            ({
                let f = FundsView {
                    allowances: old(allowances)@,
                    metadata: old(metadata)@,
                    pool: old(pool)@,
                };
                let g = FundsView {
                    allowances: final(allowances)@,
                    metadata: final(metadata)@,
                    pool: final(pool)@,
                };
                exists|funds: Seq<Option<H>>|
                    funded(funds) == answers@ && #[trigger] considered_all(
                        old(self)@,
                        final(self)@,
                        clock,
                        f,
                        g,
                        attach,
                        funds,
                    )
            }),
    {
        let ghost start = self@;
        let ghost f = FundsView {
            allowances: allowances@,
            metadata: metadata@,
            pool: pool@,
        };
        let q = self.credit_queue(clock);
        let ghost all = waiting_views(q@);
        let ghost listed = self@;
        let mut answers: Vec<bool> = Vec::new();
        let ghost mut funds = Seq::<Option<H>>::empty();
        let mut i: usize = 0;
        while i < q.len()
            invariant
                i <= q@.len(),
                all == waiting_views(q@),
                answers@.len() == i,
                funded(funds) == answers@,
                allowances.wf(),
                metadata.wf(),
                pool.wf(),
                forall|t: &Topic, p: CreditPermits| #[trigger] attach.requires((t, p)),
                self@ == granted_upto(listed, all, funds, i as nat),
                (FundsView { allowances: allowances@, metadata: metadata@, pool: pool@ })
                    == funds_upto(listed, all, funds, f, i as nat),
                forall|j: int|
                    0 <= j < i ==> fund_of(
                        attach,
                        all[j].0,
                        permits_at(listed, all, funds, f, j as nat),
                        #[trigger] funds[j],
                    ),
            decreases q@.len() - i,
        {
            let (topic, peer) = &q[i];
            let ghost had = funds;
            let fund = match self.credit_charge(topic, peer) {
                None => None,
                Some(charge) => match allowances.set_aside(topic, metadata, pool, charge) {
                    Ok(permits) => Some(attach(topic, permits)),
                    Err(_) => None,
                },
            };
            assert(all[i as int] == (topic@, peer@));
            proof {
                funds = funds.push(fund);
                lemma_granted_prefix(listed, all, had, funds, i as nat);
                lemma_funds_prefix(listed, all, had, funds, f, i as nat);
                assert forall|j: int| 0 <= j < i + 1 implies fund_of(
                    attach,
                    all[j].0,
                    permits_at(listed, all, funds, f, j as nat),
                    #[trigger] funds[j],
                ) by {
                    if j < i {
                        lemma_granted_prefix(listed, all, had, funds, j as nat);
                        lemma_funds_prefix(listed, all, had, funds, f, j as nat);
                        assert(funds[j] == had[j]);
                    }
                }
            }
            match fund {
                Some(held) => {
                    self.grant_credit(topic, peer, held);
                    answers.push(true);
                },
                None => {
                    answers.push(false);
                },
            }
            assert(funded(funds) =~= funded(had).push(fund is Some));
            i = i + 1;
        }
        proof {
            let g = FundsView { allowances: allowances@, metadata: metadata@, pool: pool@ };
            assert(considered_all(start, self@, clock, f, g, attach, funds));
        }
        answers
    }

    /// Lets a new subscription have as much out as the settings allow.
    pub fn open_allowance(&self, topic: &Topic, allowances: &mut Allowances)
        requires
            old(allowances).wf(),
        ensures
            final(allowances).wf(),
            final(allowances)@ == old(allowances)@.insert(topic@, final(allowances)@[topic@]),
            fresh_allowance(
                final(allowances)@[topic@],
                self@.config.subscription_messages as usize,
                self@.config.subscription_bytes as usize,
            ),
    {
        allowances.open(topic, self.config.subscription_messages, self.config.subscription_bytes);
    }

    /// Forgets what the subscriptions that are gone had out.
    pub fn close_allowances(&self, allowances: &mut Allowances)
        requires
            old(allowances).wf(),
        ensures
            final(allowances).wf(),
            final(allowances)@ == kept(
                old(allowances)@,
                |t: Seq<char>, a: AllowanceView| self@.subscriptions.contains_key(t),
            ),
    {
        allowances.keep(&self.subscriptions);
        assert(allowances@ =~= kept(
            old(allowances)@,
            |t: Seq<char>, a: AllowanceView| self@.subscriptions.contains_key(t),
        ));
    }
}

/// How later answers come out makes no difference to those who were considered before.
proof fn lemma_granted_prefix<H>(
    v: OwnerView<H>,
    q: Seq<(Seq<char>, Seq<u8>)>,
    a: Seq<Option<H>>,
    b: Seq<Option<H>>,
    n: nat,
)
    requires
        a.len() >= n,
        b.len() >= n,
        forall|i: int| 0 <= i < n ==> a[i] == b[i],
    ensures
        granted_upto(v, q, a, n) == granted_upto(v, q, b, n),
    decreases n,
{
    if n > 0 {
        lemma_granted_prefix(v, q, a, b, (n - 1) as nat);
    }
}

proof fn lemma_funds_prefix<H>(
    v: OwnerView<H>,
    q: Seq<(Seq<char>, Seq<u8>)>,
    a: Seq<Option<H>>,
    b: Seq<Option<H>>,
    f: FundsView,
    n: nat,
)
    requires
        a.len() >= n,
        b.len() >= n,
        forall|i: int| 0 <= i < n ==> a[i] == b[i],
    ensures
        funds_upto(v, q, a, f, n) == funds_upto(v, q, b, f, n),
    decreases n,
{
    if n > 0 {
        let l = (n - 1) as nat;
        lemma_granted_prefix(v, q, a, b, l);
        lemma_funds_prefix(v, q, a, b, f, l);
    }
}

// Sending, and everything that is seen to

/// Whether one state comes from another by looking at all deliveries, whatever numbers were drawn.
pub open spec fn scheduled_somehow<H>(
    v: OwnerView<H>,
    w: OwnerView<H>,
    clock: Option<u64>,
    now: u128,
) -> bool {
    exists|jitters: Seq<u16>|
        jitters.len() == delivery_list(v.deliveries.pending).len() && w == #[trigger] scheduled(
            v,
            clock,
            now,
            jitters,
        )
}

/// Whether one state comes from another by seeing to everything, whatever numbers were drawn: `f` is
/// what room for frames is set aside out of, and `g` what is left of it.
pub open spec fn maintained<H, F: Fn(&Topic, CreditPermits) -> H>(
    v: OwnerView<H>,
    w: OwnerView<H>,
    clock: Option<u64>,
    now: u128,
    f: FundsView,
    g: FundsView,
    attach: F,
) -> bool {
    exists|u: OwnerView<H>, funds: Seq<Option<H>>| #[trigger]
        considered_all(tidied(v, clock, now), u, clock, f, g, attach, funds) && scheduled_somehow(
            u,
            w,
            clock,
            now,
        )
}

impl<H> Owner<H> {
    /// Looks at all deliveries, in order: writes those that are due and that their peers have
    /// granted room for, and asks for room for the others that are due.
    pub fn schedule(&mut self, clock: Option<u64>, now: u128)
        requires
            now <= LAST_MOMENT,
        ensures
            scheduled_somehow(old(self)@, final(self)@, clock, now),
    {
        let ghost start = self@;
        let n: usize = self.deliveries.pending.len();
        let mut jitters: Vec<u16> = Vec::new();
        while jitters.len() < n
            invariant
                jitters@.len() <= n,
            decreases n - jitters@.len(),
        {
            jitters.push(random_jitter());
        }
        proof {
            use_type_invariant(&self.deliveries.pending);
            self.deliveries.pending.lemma_pairs();
        }
        self.schedule_with(clock, now, &jitters);
        assert(self@ == scheduled(start, clock, now, jitters@));
    }

    /// Sees to everything.
    pub fn maintenance<F: Fn(&Topic, CreditPermits) -> H>(
        &mut self,
        clock: Option<u64>,
        now: u128,
        allowances: &mut Allowances,
        metadata: &mut Budget,
        pool: &mut BufferPool,
        attach: F,
    )
        requires
            now <= LAST_MOMENT,
            old(allowances).wf(),
            old(metadata).wf(),
            old(pool).wf(),
            forall|t: &Topic, p: CreditPermits| #[trigger] attach.requires((t, p)),
        ensures
            final(allowances).wf(),
            final(metadata).wf(),
            final(pool).wf(),
            maintained(
                old(self)@,
                final(self)@,
                clock,
                now,
                (FundsView {
                    allowances: old(allowances)@,
                    metadata: old(metadata)@,
                    pool: old(pool)@,
                }),
                (FundsView {
                    allowances: final(allowances)@,
                    metadata: final(metadata)@,
                    pool: final(pool)@,
                }),
                attach,
            ),
    {
        let ghost f = FundsView { allowances: allowances@, metadata: metadata@, pool: pool@ };
        self.tidy(clock, now);
        let ghost tidy = self@;
        let answers = self.grant_credits(clock, allowances, metadata, pool, attach);
        let ghost g = FundsView { allowances: allowances@, metadata: metadata@, pool: pool@ };
        let ghost funds = choose|funds: Seq<Option<H>>|
            funded(funds) == answers@ && #[trigger] considered_all(
                tidy,
                self@,
                clock,
                f,
                g,
                attach,
                funds,
            );
        assert(considered_all(tidy, self@, clock, f, g, attach, funds));
        self.schedule(clock, now);
    }
}

} // verus!
