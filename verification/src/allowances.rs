//! What a subscription may have out at once: so many messages and so many bytes, whether they are on
//! their way, queued, or with the application.
use crate::buffer::{
    after_release, after_reserve, budget_sound, law_fresh_budget_is_in_order,
    law_release_keeps_order, law_reserve_keeps_order, next_permit, permit_held, reserved, Budget,
    BudgetView, BufferPool, Permit, PermitView, PoolView,
};
use crate::error::Error;
use crate::message::Topic;
use crate::ordered::{kept, OrderedMap};
use vstd::prelude::*;

verus! {

// One grant

/// What must be set aside before room for a frame is granted.
#[derive(Clone, Copy, Debug, PartialEq, Eq)]
pub struct CreditCharge {
    /// The size of the frame, out of the bytes of the subscription.
    pub bytes: usize,
    /// Out of the memory for payloads.
    pub payload: usize,
    /// Out of the memory for metadata.
    pub metadata: usize,
    /// Out of the memory for metadata, while the frame comes in.
    pub transit: usize,
}

/// What was set aside for room for a frame, as a value.
#[verifier::ext_equal]
pub struct CreditPermitsView {
    pub metadata: PermitView,
    pub slot: PermitView,
    pub bytes: PermitView,
    pub transit: PermitView,
    pub payload: PermitView,
}

/// What was set aside for room for a frame.
#[derive(Debug)]
pub struct CreditPermits {
    /// Out of the memory for metadata, for the record of the message.
    pub metadata: Permit,
    /// One of the messages of the subscription.
    pub slot: Permit,
    /// The size of the frame, out of the bytes of the subscription.
    pub bytes: Permit,
    /// Out of the memory for metadata, while the frame comes in.
    pub transit: Permit,
    /// Out of the memory for payloads.
    pub payload: Permit,
}

impl View for CreditPermits {
    type V = CreditPermitsView;

    open spec fn view(&self) -> CreditPermitsView {
        CreditPermitsView {
            metadata: self.metadata@,
            slot: self.slot@,
            bytes: self.bytes@,
            transit: self.transit@,
            payload: self.payload@,
        }
    }
}

/// What room for a frame is set aside out of, as a value: the messages and the bytes of the
/// subscription, the memory for metadata, and the memory for payloads.
#[verifier::ext_equal]
pub struct SourcesView {
    pub slots: BudgetView,
    pub bytes: BudgetView,
    pub metadata: BudgetView,
    pub pool: PoolView,
}

/// Whether so much is left of a budget.
pub open spec fn fits(b: BudgetView, n: usize) -> bool {
    b.used + n <= b.limit
}

/// A budget out of which so much was set aside and let go again: only the most that was ever in use
/// may have changed.
pub open spec fn tried(b: BudgetView, n: nat) -> BudgetView {
    BudgetView {
        peak: if b.used + n > b.peak {
            (b.used + n) as usize
        } else {
            b.peak
        },
        ..b
    }
}

/// How many of the five parts of a charge can be set aside, one after the other.
pub open spec fn parts_that_fit(s: SourcesView, c: CreditCharge) -> nat {
    if !fits(s.metadata, c.metadata) {
        0
    } else if !fits(s.slots, 1) {
        1
    } else if !fits(s.bytes, c.bytes) {
        2
    } else if !fits(after_reserve(s.metadata, c.metadata), c.transit) {
        3
    } else if !fits(s.pool.budget, c.payload) {
        4
    } else {
        5
    }
}

/// Whether a charge can be set aside.
pub open spec fn can_set_aside(s: SourcesView, c: CreditCharge) -> bool {
    parts_that_fit(s, c) == 5
}

/// The permits for a charge that can be set aside.
pub open spec fn permits_for(s: SourcesView, c: CreditCharge) -> CreditPermitsView {
    CreditPermitsView {
        metadata: next_permit(s.metadata),
        slot: next_permit(s.slots),
        bytes: next_permit(s.bytes),
        transit: next_permit(after_reserve(s.metadata, c.metadata)),
        payload: next_permit(s.pool.budget),
    }
}

/// What is left after a charge was to be set aside: all of it, or nothing.
pub open spec fn after_set_aside(s: SourcesView, c: CreditCharge) -> SourcesView {
    let n = parts_that_fit(s, c);
    if n == 5 {
        SourcesView {
            slots: after_reserve(s.slots, 1),
            bytes: after_reserve(s.bytes, c.bytes),
            metadata: after_reserve(after_reserve(s.metadata, c.metadata), c.transit),
            pool: PoolView { budget: after_reserve(s.pool.budget, c.payload), ..s.pool },
        }
    } else {
        SourcesView {
            slots: if n >= 2 {
                tried(s.slots, 1)
            } else {
                s.slots
            },
            bytes: if n >= 3 {
                tried(s.bytes, c.bytes as nat)
            } else {
                s.bytes
            },
            metadata: if n >= 4 {
                tried(s.metadata, (c.metadata + c.transit) as nat)
            } else if n >= 1 {
                tried(s.metadata, c.metadata as nat)
            } else {
                s.metadata
            },
            pool: s.pool,
        }
    }
}

/// Sets aside what room for a frame takes, all of it or nothing. The record of the message comes
/// before its payload, so that a frame that was granted cannot fail for want of it.
pub fn set_aside(
    slots: &mut Budget,
    bytes: &mut Budget,
    metadata: &mut Budget,
    pool: &mut BufferPool,
    charge: CreditCharge,
) -> (r: Result<CreditPermits, Error>)
    requires
        old(slots).wf(),
        old(bytes).wf(),
        old(metadata).wf(),
        old(pool).wf(),
    ensures
        final(slots).wf(),
        final(bytes).wf(),
        final(metadata).wf(),
        final(pool).wf(),
        ({
            let s = SourcesView {
                slots: old(slots)@,
                bytes: old(bytes)@,
                metadata: old(metadata)@,
                pool: old(pool)@,
            };
            let t = SourcesView {
                slots: final(slots)@,
                bytes: final(bytes)@,
                metadata: final(metadata)@,
                pool: final(pool)@,
            };
            &&& t == after_set_aside(s, charge)
            &&& match r {
                Ok(p) => can_set_aside(s, charge) && p@ == permits_for(s, charge),
                Err(e) => !can_set_aside(s, charge) && e == Error::QueueFull,
            }
        }),
{
    let record = metadata.reserve(charge.metadata)?;
    let slot = match slots.reserve(1) {
        Ok(p) => p,
        Err(e) => {
            metadata.release(record);
            assert(metadata@.reservations =~= old(metadata)@.reservations);
            return Err(e);
        },
    };
    let room = match bytes.reserve(charge.bytes) {
        Ok(p) => p,
        Err(e) => {
            slots.release(slot);
            assert(slots@.reservations =~= old(slots)@.reservations);
            metadata.release(record);
            assert(metadata@.reservations =~= old(metadata)@.reservations);
            return Err(e);
        },
    };
    let ghost recorded = metadata@;
    let transit = match metadata.reserve(charge.transit) {
        Ok(p) => p,
        Err(e) => {
            bytes.release(room);
            assert(bytes@.reservations =~= old(bytes)@.reservations);
            slots.release(slot);
            assert(slots@.reservations =~= old(slots)@.reservations);
            metadata.release(record);
            assert(metadata@.reservations =~= old(metadata)@.reservations);
            return Err(e);
        },
    };
    let payload = match pool.reserve(charge.payload) {
        Ok(p) => p,
        Err(e) => {
            metadata.release(transit);
            assert(metadata@.reservations =~= recorded.reservations);
            bytes.release(room);
            assert(bytes@.reservations =~= old(bytes)@.reservations);
            slots.release(slot);
            assert(slots@.reservations =~= old(slots)@.reservations);
            metadata.release(record);
            assert(metadata@.reservations =~= old(metadata)@.reservations);
            return Err(e);
        },
    };
    Ok(CreditPermits { metadata: record, slot, bytes: room, transit, payload })
}

// One subscription

/// What a subscription may have out, and has, as a value.
#[verifier::ext_equal]
pub struct AllowanceView {
    pub slots: BudgetView,
    pub bytes: BudgetView,
}

/// What a subscription may have out, and has: messages, and their bytes.
pub struct Allowance {
    slots: Budget,
    bytes: Budget,
}

impl View for Allowance {
    type V = AllowanceView;

    closed spec fn view(&self) -> AllowanceView {
        AllowanceView { slots: self.slots@, bytes: self.bytes@ }
    }
}

/// What holds of every allowance: as much is out as is set aside, and never more than its limits.
pub open spec fn allowance_sound(a: AllowanceView) -> bool {
    budget_sound(a.slots) && budget_sound(a.bytes)
}

/// An allowance out of which nothing was taken.
pub open spec fn fresh_allowance(a: AllowanceView, messages: usize, bytes: usize) -> bool {
    &&& a.slots == BudgetView {
        id: a.slots.id,
        limit: messages,
        used: 0,
        peak: 0,
        reservations: Map::empty(),
    }
    &&& a.bytes == BudgetView {
        id: a.bytes.id,
        limit: bytes,
        used: 0,
        peak: 0,
        reservations: Map::empty(),
    }
}

/// An allowance after a share in what was taken out of it is let go.
pub open spec fn after_return(a: AllowanceView, p: PermitView) -> AllowanceView {
    if permit_held(a.slots, p) {
        AllowanceView { slots: after_release(a.slots, p), ..a }
    } else {
        AllowanceView { bytes: after_release(a.bytes, p), ..a }
    }
}

// All subscriptions

/// What each subscription of an endpoint may have out, and has.
pub struct Allowances {
    topics: OrderedMap<Topic, Allowance>,
}

impl View for Allowances {
    type V = Map<Seq<char>, AllowanceView>;

    closed spec fn view(&self) -> Map<Seq<char>, AllowanceView> {
        self.topics@
    }
}

/// What room for frames is set aside out of at an endpoint, as a value: what its subscriptions may
/// have out, the memory for metadata, and the memory for payloads.
#[verifier::ext_equal]
pub struct FundsView {
    pub allowances: Map<Seq<char>, AllowanceView>,
    pub metadata: BudgetView,
    pub pool: PoolView,
}

/// What room for a frame at a subscription is set aside out of.
pub open spec fn sources(f: FundsView, topic: Seq<char>) -> SourcesView {
    SourcesView {
        slots: f.allowances[topic].slots,
        bytes: f.allowances[topic].bytes,
        metadata: f.metadata,
        pool: f.pool,
    }
}

/// Why room for a frame at a subscription cannot be set aside, if it cannot.
pub open spec fn funding_refusal(f: FundsView, topic: Seq<char>, c: CreditCharge) -> Option<Error> {
    if !f.allowances.contains_key(topic) {
        Some(Error::SubscriptionClosed)
    } else if !can_set_aside(sources(f, topic), c) {
        Some(Error::QueueFull)
    } else {
        None
    }
}

/// What is left after room for a frame at a subscription was to be set aside.
pub open spec fn after_funding(f: FundsView, topic: Seq<char>, c: CreditCharge) -> FundsView {
    if !f.allowances.contains_key(topic) {
        f
    } else {
        let t = after_set_aside(sources(f, topic), c);
        FundsView {
            allowances: f.allowances.insert(
                topic,
                AllowanceView { slots: t.slots, bytes: t.bytes },
            ),
            metadata: t.metadata,
            pool: t.pool,
        }
    }
}

impl Allowances {
    /// Whether all of them are in order.
    pub open spec fn wf(self) -> bool {
        forall|t: Seq<char>| #[trigger]
            self@.contains_key(t) ==> allowance_sound(self@[t])
    }

    pub fn new() -> (a: Allowances)
        ensures
            a.wf(),
            a@ == Map::<Seq<char>, AllowanceView>::empty(),
    {
        Allowances { topics: OrderedMap::new() }
    }

    /// Lets a new subscription have so much out. What an earlier one on the topic still has out does
    /// not count.
    pub fn open(&mut self, topic: &Topic, messages: usize, bytes: usize)
        requires
            old(self).wf(),
        ensures
            final(self).wf(),
            final(self)@ == old(self)@.insert(topic@, final(self)@[topic@]),
            fresh_allowance(final(self)@[topic@], messages, bytes),
    {
        let fresh = Allowance { slots: Budget::new(messages), bytes: Budget::new(bytes) };
        assert(allowance_sound(fresh@));
        self.topics.insert(topic.clone(), fresh);
        assert forall|t: Seq<char>| #[trigger] self@.contains_key(t) implies allowance_sound(
            self@[t],
        ) by {
            if t != topic@ {
                assert(old(self)@.contains_key(t));
            }
        }
    }

    /// Sets aside what room for a frame at a subscription takes, all of it or nothing.
    pub fn set_aside(
        &mut self,
        topic: &Topic,
        metadata: &mut Budget,
        pool: &mut BufferPool,
        charge: CreditCharge,
    ) -> (r: Result<CreditPermits, Error>)
        requires
            old(self).wf(),
            old(metadata).wf(),
            old(pool).wf(),
        ensures
            final(self).wf(),
            final(metadata).wf(),
            final(pool).wf(),
            ({
                let f = FundsView {
                    allowances: old(self)@,
                    metadata: old(metadata)@,
                    pool: old(pool)@,
                };
                let g = FundsView {
                    allowances: final(self)@,
                    metadata: final(metadata)@,
                    pool: final(pool)@,
                };
                &&& g == after_funding(f, topic@, charge)
                &&& match funding_refusal(f, topic@, charge) {
                    Some(e) => r is Err && r->Err_0 == e,
                    None => r is Ok && r->Ok_0@ == permits_for(sources(f, topic@), charge),
                }
            }),
    {
        match self.topics.get_mut(topic) {
            Some(a) => set_aside(&mut a.slots, &mut a.bytes, metadata, pool, charge),
            None => Err(Error::SubscriptionClosed),
        }
    }

    /// Lets go of a share in what was taken out for a subscription. Nothing happens where that
    /// subscription is gone, also if there is a new one on the topic.
    pub fn give_back(&mut self, topic: &Topic, p: Permit)
        requires
            old(self).wf(),
        ensures
            final(self).wf(),
            final(self)@ == if old(self)@.contains_key(topic@) {
                old(self)@.insert(topic@, after_return(old(self)@[topic@], p@))
            } else {
                old(self)@
            },
    {
        if let Some(a) = self.topics.get_mut(topic) {
            assert(old(self)@.contains_key(topic@));
            if a.slots.amount(&p).is_some() {
                a.slots.release(p);
            } else {
                a.bytes.release(p);
            }
        }
    }

    /// Forgets the subscriptions that are not there any more.
    pub fn keep<V: View>(&mut self, there: &OrderedMap<Topic, V>)
        requires
            old(self).wf(),
        ensures
            final(self).wf(),
            final(self)@ == kept(
                old(self)@,
                |t: Seq<char>, a: AllowanceView| there@.contains_key(t),
            ),
    {
        let ghost still = |t: Seq<char>, a: AllowanceView| there@.contains_key(t);
        let stays = |t: &Topic, a: &Allowance| -> (b: bool)
            ensures
                b == there@.contains_key(t@),
            { there.contains_key(t) };
        self.topics.retain(stays, Ghost(still));
        assert forall|t: Seq<char>| #[trigger] self@.contains_key(t) implies allowance_sound(
            self@[t],
        ) by {
            assert(old(self)@.contains_key(t));
        }
    }

    /// How many messages and how many bytes a subscription has out.
    pub fn out(&self, topic: &Topic) -> (r: Option<(usize, usize)>)
        ensures
            r == if self@.contains_key(topic@) {
                Some((self@[topic@].slots.used, self@[topic@].bytes.used))
            } else {
                None
            },
    {
        match self.topics.get(topic) {
            Some(a) => Some((a.slots.used(), a.bytes.used())),
            None => None,
        }
    }
}

// What is promised of them

/// Something that happens to what a subscription may have out: room for a frame is to be set aside,
/// or a share in what was set aside is let go.
pub enum AllowanceEvent {
    SetAside(CreditCharge, BudgetView, PoolView),
    GiveBack(PermitView),
}

/// An allowance after something happened to it. The rest of what room for a frame takes comes out of
/// whatever memory there is.
pub open spec fn after_event(a: AllowanceView, e: AllowanceEvent) -> AllowanceView {
    match e {
        AllowanceEvent::SetAside(c, metadata, pool) => {
            let t = after_set_aside(
                SourcesView { slots: a.slots, bytes: a.bytes, metadata, pool },
                c,
            );
            AllowanceView { slots: t.slots, bytes: t.bytes }
        },
        AllowanceEvent::GiveBack(p) => after_return(a, p),
    }
}

/// An allowance after all of this happened to it, in order.
pub open spec fn after_events(a: AllowanceView, events: Seq<AllowanceEvent>) -> AllowanceView
    decreases events.len(),
{
    if events.len() == 0 {
        a
    } else {
        after_event(after_events(a, events.drop_last()), events.last())
    }
}

/// Whatever happens, in whatever order, a subscription never has more messages or more bytes out than
/// it may: what is out is what was set aside for it and not let go, and is within its limits.
pub proof fn law_subscription_stays_within_its_limits(
    a: AllowanceView,
    messages: usize,
    bytes: usize,
    events: Seq<AllowanceEvent>,
)
    requires
        fresh_allowance(a, messages, bytes),
        events.len() <= u64::MAX,
    ensures
        ({
            let b = after_events(a, events);
            &&& allowance_sound(b)
            &&& b.slots.used == reserved(b.slots.reservations)
            &&& b.bytes.used == reserved(b.bytes.reservations)
            &&& b.slots.used <= b.slots.peak <= messages
            &&& b.bytes.used <= b.bytes.peak <= bytes
        }),
{
    lemma_within_limits(a, messages, bytes, events);
}

proof fn lemma_within_limits(
    a: AllowanceView,
    messages: usize,
    bytes: usize,
    events: Seq<AllowanceEvent>,
)
    requires
        fresh_allowance(a, messages, bytes),
        events.len() <= u64::MAX,
    ensures
        ({
            let b = after_events(a, events);
            &&& allowance_sound(b)
            &&& b.slots.reservations.dom().len() <= events.len()
            &&& b.bytes.reservations.dom().len() <= events.len()
            &&& b.slots.limit == messages && b.bytes.limit == bytes
        }),
    decreases events.len(),
{
    if events.len() == 0 {
        law_fresh_budget_is_in_order(a.slots);
        law_fresh_budget_is_in_order(a.bytes);
    } else {
        lemma_within_limits(a, messages, bytes, events.drop_last());
        let b = after_events(a, events.drop_last());
        match events.last() {
            AllowanceEvent::SetAside(c, metadata, pool) => {
                let s = SourcesView { slots: b.slots, bytes: b.bytes, metadata, pool };
                if can_set_aside(s, c) {
                    law_reserve_keeps_order(b.slots, 1);
                    law_reserve_keeps_order(b.bytes, c.bytes);
                }
            },
            AllowanceEvent::GiveBack(p) => {
                law_release_keeps_order(b.slots, p);
                law_release_keeps_order(b.bytes, p);
            },
        }
    }
}

/// A subscription that set something aside has just that much more out, and one that could not has
/// as much out as before; where something was left of everything that room for a frame takes, it
/// could.
pub proof fn law_room_is_all_or_nothing(s: SourcesView, c: CreditCharge)
    ensures
        ({
            let t = after_set_aside(s, c);
            if can_set_aside(s, c) {
                &&& t.slots.used == s.slots.used + 1 <= s.slots.limit
                &&& t.bytes.used == s.bytes.used + c.bytes <= s.bytes.limit
                &&& t.metadata.used == s.metadata.used + c.metadata + c.transit <= s.metadata.limit
                &&& t.pool.budget.used == s.pool.budget.used + c.payload <= s.pool.budget.limit
            } else {
                &&& t.slots == tried(s.slots, 1) || t.slots == s.slots
                &&& t.bytes == tried(s.bytes, c.bytes as nat) || t.bytes == s.bytes
                &&& t.metadata == (BudgetView { peak: t.metadata.peak, ..s.metadata })
                &&& t.pool == s.pool
            }
        }),
        can_set_aside(s, c) <==> {
            &&& s.slots.used + 1 <= s.slots.limit
            &&& s.bytes.used + c.bytes <= s.bytes.limit
            &&& s.metadata.used + c.metadata + c.transit <= s.metadata.limit
            &&& s.pool.budget.used + c.payload <= s.pool.budget.limit
        },
{
}

} // verus!
