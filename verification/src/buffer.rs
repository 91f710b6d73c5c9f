//! Memory that is set aside before it is used, and the payloads that it is set aside for.
use crate::crypto::{random_id, Id};
use crate::endpoint::PAYLOAD_OVERHEAD;
use crate::error::Error;
use crate::octets::{same_bytes, Relation};
use crate::ordered::{
    increasing, lemma_listing, lemma_listing_exists, lemma_placed, listing, pairs_map, placed, Key,
    OrderedMap,
};
use vstd::prelude::*;
use vstd::slice::slice_to_vec;

verus! {

impl Key for u64 {
    open spec fn less(a: u64, b: u64) -> bool {
        a < b
    }

    proof fn less_irreflexive(a: u64) {
    }

    proof fn less_transitive(a: u64, b: u64, c: u64) {
    }

    proof fn less_total(a: u64, b: u64) {
    }

    fn compare(&self, other: &Self) -> (r: Relation) {
        if *self < *other {
            Relation::Less
        } else if *self > *other {
            Relation::Greater
        } else {
            Relation::Same
        }
    }
}

// Budgets

/// One reservation: how much is set aside, and how many hold it.
#[derive(Clone, Copy, Debug)]
pub struct Reservation {
    amount: usize,
    holders: usize,
}

impl View for Reservation {
    type V = (usize, usize);

    closed spec fn view(&self) -> (usize, usize) {
        (self.amount, self.holders)
    }
}

/// A share in a reservation, as a value.
#[verifier::ext_equal]
pub struct PermitView {
    pub budget: Seq<u8>,
    pub ticket: u64,
}

/// A share in a reservation. What is reserved is free again when the last share is released.
#[derive(Debug)]
pub struct Permit {
    budget: Id,
    ticket: u64,
}

impl View for Permit {
    type V = PermitView;

    closed spec fn view(&self) -> PermitView {
        PermitView { budget: self.budget@, ticket: self.ticket }
    }
}

/// A limited amount of memory, as a value.
#[verifier::ext_equal]
pub struct BudgetView {
    pub id: Seq<u8>,
    pub limit: usize,
    pub used: usize,
    pub peak: usize,
    pub reservations: Map<u64, (usize, usize)>,
}

/// A limited amount of memory, and what of it is set aside.
pub struct Budget {
    id: Id,
    limit: usize,
    used: usize,
    peak: usize,
    reservations: OrderedMap<u64, Reservation>,
}

impl View for Budget {
    type V = BudgetView;

    closed spec fn view(&self) -> BudgetView {
        BudgetView {
            id: self.id@,
            limit: self.limit,
            used: self.used,
            peak: self.peak,
            reservations: self.reservations@,
        }
    }
}

/// How much the reservations on a list come to.
pub open spec fn amounts(s: Seq<(u64, (usize, usize))>) -> nat
    decreases s.len(),
{
    if s.len() == 0 {
        0
    } else {
        amounts(s.drop_last()) + s.last().1.0 as nat
    }
}

/// How much all reservations come to.
pub open spec fn reserved(m: Map<u64, (usize, usize)>) -> nat {
    amounts(listing::<u64, (usize, usize)>(m))
}

/// What holds of every budget: what is used is what is reserved, and is never more than the limit.
pub open spec fn budget_sound(b: BudgetView) -> bool {
    &&& b.reservations.dom().finite()
    &&& b.used == reserved(b.reservations)
    &&& b.used <= b.peak <= b.limit
    &&& forall|t: u64| #[trigger]
        b.reservations.contains_key(t) ==> b.reservations[t].1 >= 1
}

/// Whether a permit is a share in a reservation of a budget.
pub open spec fn permit_held(b: BudgetView, p: PermitView) -> bool {
    p.budget == b.id && b.reservations.contains_key(p.ticket)
}

/// What a permit stands for.
pub open spec fn permit_amount(b: BudgetView, p: PermitView) -> nat {
    b.reservations[p.ticket].0 as nat
}

/// The number that the next reservation gets: the smallest that no reservation has.
pub open spec fn free_ticket(m: Map<u64, (usize, usize)>) -> u64 {
    choose|t: u64| is_free_ticket(m, t)
}

/// Whether a number is the smallest that no reservation has.
pub open spec fn is_free_ticket(m: Map<u64, (usize, usize)>, t: u64) -> bool {
    !m.contains_key(t) && forall|u: u64| u < t ==> #[trigger] m.contains_key(u)
}

/// The permit that the next reservation gives.
pub open spec fn next_permit(b: BudgetView) -> PermitView {
    PermitView { budget: b.id, ticket: free_ticket(b.reservations) }
}

proof fn lemma_free_ticket(m: Map<u64, (usize, usize)>, t: u64)
    requires
        is_free_ticket(m, t),
    ensures
        free_ticket(m) == t,
{
    let u = free_ticket(m);
    assert(is_free_ticket(m, u));
    if u < t {
        assert(m.contains_key(u));
    } else if t < u {
        assert(m.contains_key(t));
    }
}

/// Tickets in order are at least as far apart as their places.
proof fn lemma_tickets_apart(s: Seq<(u64, (usize, usize))>, i: int, j: int)
    requires
        increasing::<u64, (usize, usize)>(s),
        0 <= i <= j < s.len(),
    ensures
        s[j].0 - s[i].0 >= j - i,
    decreases j - i,
{
    if i < j {
        lemma_tickets_apart(s, i, j - 1);
        assert(u64::less(s[j - 1].0, s[j].0));
    }
}

/// Where there are fewer reservations than numbers, one is free.
proof fn lemma_some_ticket_free(m: Map<u64, (usize, usize)>)
    requires
        m.dom().finite(),
        m.dom().len() <= u64::MAX,
    ensures
        is_free_ticket(m, free_ticket(m)),
{
    let s = listing::<u64, (usize, usize)>(m);
    lemma_listing_exists::<u64, (usize, usize)>(m);
    lemma_free_place(s, s.len() as int);
}

proof fn lemma_free_place(s: Seq<(u64, (usize, usize))>, n: int)
    requires
        increasing::<u64, (usize, usize)>(s),
        0 <= n <= s.len() <= u64::MAX,
        forall|j: int| n <= j < s.len() ==> (#[trigger] s[j]).0 > j,
    ensures
        is_free_ticket(pairs_map(s), free_ticket(pairs_map(s))),
    decreases n,
{
    let m = pairs_map(s);
    assert forall|j: int| 0 <= j < s.len() implies (#[trigger] s[j]).0 >= j by {
        lemma_tickets_apart(s, 0, j);
    }
    if n > 0 && s[n - 1].0 > n - 1 {
        lemma_free_place(s, n - 1);
    } else {
        if n > 0 {
            assert forall|j: int| 0 <= j < n implies (#[trigger] s[j]).0 == j by {
                lemma_tickets_apart(s, j, n - 1);
            }
        }
        let t = n as u64;
        assert forall|u: u64| u < t implies #[trigger] m.contains_key(u) by {
            assert(s[u as int].0 == u);
        }
        assert(is_free_ticket(m, t));
        lemma_free_ticket(m, t);
    }
}

/// A budget after a reservation.
pub open spec fn after_reserve(b: BudgetView, n: usize) -> BudgetView {
    BudgetView {
        used: (b.used + n) as usize,
        peak: if b.used + n > b.peak {
            (b.used + n) as usize
        } else {
            b.peak
        },
        reservations: b.reservations.insert(free_ticket(b.reservations), (n, 1)),
        ..b
    }
}

/// A budget after a share is released.
pub open spec fn after_release(b: BudgetView, p: PermitView) -> BudgetView {
    if !permit_held(b, p) {
        b
    } else {
        let (amount, holders) = b.reservations[p.ticket];
        if holders == 1 {
            BudgetView {
                used: (b.used - amount) as usize,
                reservations: b.reservations.remove(p.ticket),
                ..b
            }
        } else {
            BudgetView {
                reservations: b.reservations.insert(p.ticket, (amount, (holders - 1) as usize)),
                ..b
            }
        }
    }
}

/// A budget after another holds a share.
pub open spec fn after_share(b: BudgetView, p: PermitView) -> BudgetView {
    let (amount, holders) = b.reservations[p.ticket];
    BudgetView {
        reservations: b.reservations.insert(p.ticket, (amount, (holders + 1) as usize)),
        ..b
    }
}

/// A budget after a reservation is made smaller.
pub open spec fn after_shrink(b: BudgetView, p: PermitView, n: usize) -> BudgetView {
    if !permit_held(b, p) {
        b
    } else {
        let (amount, holders) = b.reservations[p.ticket];
        BudgetView {
            used: (b.used - (amount - n)) as usize,
            reservations: b.reservations.insert(p.ticket, (n, holders)),
            ..b
        }
    }
}

proof fn lemma_placed_amounts(s: Seq<(u64, (usize, usize))>, k: u64, b: (usize, usize))
    ensures
        amounts(placed::<u64, (usize, usize)>(s, k, b)) == amounts(s) + b.0,
    decreases s.len(),
{
    let t = placed::<u64, (usize, usize)>(s, k, b);
    reveal_with_fuel(amounts, 2);
    if s.len() == 0 {
        assert(t.drop_last() =~= s);
    } else {
        lemma_placed_amounts(s.drop_last(), k, b);
        if s.last().0 < k {
            assert(t.drop_last() =~= s);
        } else {
            assert(t.drop_last() =~= placed::<u64, (usize, usize)>(s.drop_last(), k, b));
            assert(t.last() == s.last());
        }
    }
}

proof fn lemma_reserved_insert(m: Map<u64, (usize, usize)>, k: u64, b: (usize, usize))
    requires
        m.dom().finite(),
        !m.contains_key(k),
    ensures
        reserved(m.insert(k, b)) == reserved(m) + b.0,
{
    let s = listing::<u64, (usize, usize)>(m);
    lemma_listing_exists::<u64, (usize, usize)>(m);
    lemma_placed::<u64, (usize, usize)>(s, k, b);
    lemma_listing::<u64, (usize, usize)>(placed::<u64, (usize, usize)>(s, k, b));
    lemma_placed_amounts(s, k, b);
}

proof fn lemma_reserved_remove(m: Map<u64, (usize, usize)>, k: u64)
    requires
        m.dom().finite(),
        m.contains_key(k),
    ensures
        reserved(m) == reserved(m.remove(k)) + m[k].0,
{
    lemma_reserved_insert(m.remove(k), k, m[k]);
    assert(m.remove(k).insert(k, m[k]) =~= m);
}

proof fn lemma_reserved_update(m: Map<u64, (usize, usize)>, k: u64, b: (usize, usize))
    requires
        m.dom().finite(),
        m.contains_key(k),
    ensures
        reserved(m.insert(k, b)) == reserved(m) - m[k].0 + b.0,
        m[k].0 <= reserved(m),
{
    lemma_reserved_remove(m, k);
    lemma_reserved_insert(m.remove(k), k, b);
    assert(m.remove(k).insert(k, b) =~= m.insert(k, b));
}

impl Budget {
    /// Whether this budget is in order.
    pub open spec fn wf(self) -> bool {
        budget_sound(self@)
    }

    pub fn new(limit: usize) -> (b: Budget)
        ensures
            b.wf(),
            b@ == (BudgetView {
                id: b@.id,
                limit,
                used: 0,
                peak: 0,
                reservations: Map::empty(),
            }),
    {
        let b = Budget {
            id: random_id(),
            limit,
            used: 0,
            peak: 0,
            reservations: OrderedMap::new(),
        };
        proof {
            assert(increasing::<u64, (usize, usize)>(Seq::empty()));
            lemma_listing::<u64, (usize, usize)>(Seq::empty());
            assert(pairs_map(Seq::<(u64, (usize, usize))>::empty()) =~= Map::<
                u64,
                (usize, usize),
            >::empty());
            assert(b@.reservations == Map::<u64, (usize, usize)>::empty());
        }
        b
    }

    pub fn used(&self) -> (n: usize)
        ensures
            n == self@.used,
    {
        self.used
    }

    pub fn peak(&self) -> (n: usize)
        ensures
            n == self@.peak,
    {
        self.peak
    }

    /// The smallest number that no reservation has.
    fn find_free(&self) -> (t: u64)
        ensures
            t == free_ticket(self@.reservations),
            !self@.reservations.contains_key(t),
    {
        let ghost s = self.reservations.pairs();
        proof {
            use_type_invariant(&self.reservations);
            self.reservations.lemma_pairs();
        }
        let mut low: usize = 0;
        let mut high: usize = self.reservations.len();
        while low < high
            invariant
                low <= high <= s.len(),
                s == self.reservations.pairs(),
                increasing::<u64, (usize, usize)>(s),
                forall|j: int| 0 <= j < low ==> (#[trigger] s[j]).0 == j,
                forall|j: int| high <= j < s.len() ==> (#[trigger] s[j]).0 > j,
            decreases high - low,
        {
            let mid: usize = low + (high - low) / 2;
            let key: u64 = *self.reservations.key_at(mid);
            proof {
                assert forall|j: int| 0 <= j < s.len() implies (#[trigger] s[j]).0 >= j by {
                    lemma_tickets_apart(s, 0, j);
                }
            }
            if key > mid as u64 {
                proof {
                    assert forall|j: int| mid <= j < s.len() implies (#[trigger] s[j]).0 > j by {
                        lemma_tickets_apart(s, mid as int, j);
                    }
                }
                high = mid;
            } else {
                proof {
                    assert forall|j: int| 0 <= j < mid + 1 implies (#[trigger] s[j]).0 == j by {
                        lemma_tickets_apart(s, j, mid as int);
                    }
                }
                low = mid + 1;
            }
        }
        let t: u64 = low as u64;
        proof {
            use_type_invariant(&self.reservations);
            self.reservations.lemma_pairs();
            assert(!self@.reservations.contains_key(t));
            assert forall|u: u64| u < t implies #[trigger] self@.reservations.contains_key(u) by {
                assert(s[u as int].0 == u);
            }
            lemma_free_ticket(self@.reservations, t);
        }
        t
    }

    /// Sets `n` aside, if that much is left.
    pub fn reserve(&mut self, n: usize) -> (r: Result<Permit, Error>)
        requires
            old(self).wf(),
        ensures
            final(self).wf(),
            match r {
                Ok(p) => old(self)@.used + n <= old(self)@.limit && p@ == next_permit(old(self)@)
                    && final(self)@ == after_reserve(old(self)@, n) && !permit_held(
                    old(self)@,
                    p@,
                ),
                Err(e) => e == Error::QueueFull && old(self)@.used + n > old(self)@.limit
                    && final(self)@ == old(self)@,
            },
    {
        if n > self.limit - self.used {
            return Err(Error::QueueFull);
        }
        let ghost before = self@;
        let ticket: u64 = self.find_free();
        proof {
            lemma_reserved_insert(before.reservations, ticket, (n, 1));
        }
        self.reservations.insert(ticket, Reservation { amount: n, holders: 1 });
        self.used = self.used + n;
        if self.used > self.peak {
            self.peak = self.used;
        }
        Ok(Permit { budget: self.id, ticket })
    }

    /// Lets another hold a share in what a permit stands for. `None` where the permit is not of
    /// this budget, or no number can count the holders.
    pub fn share(&mut self, p: &Permit) -> (r: Option<Permit>)
        requires
            old(self).wf(),
        ensures
            final(self).wf(),
            match r {
                Some(q) => permit_held(old(self)@, p@) && old(self)@.reservations[p@.ticket].1
                    < usize::MAX && q@ == p@ && final(self)@ == after_share(old(self)@, p@),
                None => (!permit_held(old(self)@, p@) || old(self)@.reservations[p@.ticket].1
                    == usize::MAX) && final(self)@ == old(self)@,
            },
    {
        if !same_bytes(&p.budget, &self.id) {
            return None;
        }
        let ghost before = self@;
        let (amount, holders) = match self.reservations.get(&p.ticket) {
            Some(r) => (r.amount, r.holders),
            None => {
                return None;
            },
        };
        if holders == usize::MAX {
            return None;
        }
        proof {
            lemma_reserved_update(
                before.reservations,
                p.ticket,
                (amount, (holders + 1) as usize),
            );
        }
        self.reservations.insert(p.ticket, Reservation { amount, holders: holders + 1 });
        Some(Permit { budget: p.budget, ticket: p.ticket })
    }

    /// Releases a share. What it stands for is free again if it was the last.
    pub fn release(&mut self, p: Permit)
        requires
            old(self).wf(),
        ensures
            final(self).wf(),
            final(self)@ == after_release(old(self)@, p@),
    {
        if !same_bytes(&p.budget, &self.id) {
            return;
        }
        let ghost before = self@;
        let (amount, holders) = match self.reservations.get(&p.ticket) {
            Some(r) => (r.amount, r.holders),
            None => {
                return;
            },
        };
        if holders == 1 {
            proof {
                lemma_reserved_remove(before.reservations, p.ticket);
            }
            self.reservations.remove(&p.ticket);
            self.used = self.used - amount;
        } else {
            proof {
                lemma_reserved_update(
                    before.reservations,
                    p.ticket,
                    (amount, (holders - 1) as usize),
                );
            }
            self.reservations.insert(p.ticket, Reservation { amount, holders: holders - 1 });
        }
    }

    /// Keeps only `n` of what a permit stands for.
    pub fn shrink_to(&mut self, p: &Permit, n: usize)
        requires
            old(self).wf(),
            permit_held(old(self)@, p@) ==> n <= permit_amount(old(self)@, p@),
        ensures
            final(self).wf(),
            final(self)@ == after_shrink(old(self)@, p@, n),
    {
        if !same_bytes(&p.budget, &self.id) {
            return;
        }
        let ghost before = self@;
        let (amount, holders) = match self.reservations.get(&p.ticket) {
            Some(r) => (r.amount, r.holders),
            None => {
                return;
            },
        };
        proof {
            lemma_reserved_update(before.reservations, p.ticket, (n, holders));
        }
        self.reservations.insert(p.ticket, Reservation { amount: n, holders });
        self.used = self.used - (amount - n);
    }

    /// How much a permit of this budget stands for.
    pub fn amount(&self, p: &Permit) -> (n: Option<usize>)
        ensures
            n == if permit_held(self@, p@) {
                Some(self@.reservations[p@.ticket].0)
            } else {
                None
            },
    {
        if !same_bytes(&p.budget, &self.id) {
            return None;
        }
        match self.reservations.get(&p.ticket) {
            Some(r) => Some(r.amount),
            None => None,
        }
    }
}

/// A budget out of which nothing is reserved is in order.
pub proof fn law_fresh_budget_is_in_order(b: BudgetView)
    requires
        b.used == 0,
        b.peak <= b.limit,
        b.reservations == Map::<u64, (usize, usize)>::empty(),
    ensures
        budget_sound(b),
{
    assert(increasing::<u64, (usize, usize)>(Seq::empty()));
    lemma_listing::<u64, (usize, usize)>(Seq::empty());
    assert(pairs_map(Seq::<(u64, (usize, usize))>::empty()) =~= Map::<u64, (usize, usize)>::empty());
}

/// A budget out of which something is reserved that fits stays in order: what is used is what is
/// reserved, and no more than the limit.
pub proof fn law_reserve_keeps_order(b: BudgetView, n: usize)
    requires
        budget_sound(b),
        b.reservations.dom().len() <= u64::MAX,
        b.used + n <= b.limit,
    ensures
        budget_sound(after_reserve(b, n)),
        after_reserve(b, n).reservations.dom().len() == b.reservations.dom().len() + 1,
        after_reserve(b, n).limit == b.limit,
{
    lemma_some_ticket_free(b.reservations);
    let t = free_ticket(b.reservations);
    lemma_reserved_insert(b.reservations, t, (n, 1));
    assert(after_reserve(b, n).reservations.dom() =~= b.reservations.dom().insert(t));
}

/// A budget out of which something is released stays in order, and uses no more than before.
pub proof fn law_release_keeps_order(b: BudgetView, p: PermitView)
    requires
        budget_sound(b),
    ensures
        budget_sound(after_release(b, p)),
        after_release(b, p).reservations.dom().len() <= b.reservations.dom().len(),
        after_release(b, p).used <= b.used,
        after_release(b, p).limit == b.limit,
{
    if permit_held(b, p) {
        let (amount, holders) = b.reservations[p.ticket];
        lemma_reserved_remove(b.reservations, p.ticket);
        lemma_reserved_update(b.reservations, p.ticket, (amount, (holders - 1) as usize));
        assert(b.reservations.remove(p.ticket).dom() =~= b.reservations.dom().remove(p.ticket));
        assert(b.reservations.insert(p.ticket, (amount, (holders - 1) as usize)).dom()
            =~= b.reservations.dom());
    }
}

/// Releasing what was reserved, which nobody shares, leaves the budget as it was before, but for the
/// most that was ever in use.
pub proof fn law_release_undoes_reserve(b: BudgetView, n: usize)
    requires
        budget_sound(b),
        b.reservations.dom().len() <= u64::MAX,
        b.used + n <= b.limit,
    ensures
        ({
            let c = after_release(after_reserve(b, n), next_permit(b));
            let peak = if b.used + n > b.peak {
                (b.used + n) as usize
            } else {
                b.peak
            };
            c == (BudgetView { peak, ..b })
        }),
{
    lemma_some_ticket_free(b.reservations);
    let c = after_release(after_reserve(b, n), next_permit(b));
    assert(c.reservations =~= b.reservations);
}

/// What several hold stays in use until the last of them releases it.
pub proof fn law_last_holder_frees(b: BudgetView, p: PermitView)
    requires
        budget_sound(b),
        permit_held(b, p),
        b.reservations[p.ticket].1 < usize::MAX,
    ensures
        ({
            let shared = after_share(b, p);
            let once = after_release(shared, p);
            &&& shared.used == b.used
            &&& once.used == b.used
            &&& once.reservations == b.reservations
            &&& b.reservations[p.ticket].1 == 1 ==> after_release(once, p).used == b.used
                - permit_amount(b, p)
        }),
{
    let once = after_release(after_share(b, p), p);
    assert(once.reservations =~= b.reservations);
    lemma_reserved_remove(b.reservations, p.ticket);
}

// Payloads

/// `bytes::Bytes`: bytes that can be shared without being copied, and that do not change.
#[verifier::external_type_specification]
#[verifier::external_body]
pub struct ExBytes(bytes::Bytes);

/// The bytes that a `bytes::Bytes` holds.
pub uninterp spec fn bytes_held(b: bytes::Bytes) -> Seq<u8>;

/// `bytes::Bytes::from` a vector: it holds what the vector held.
#[verifier::external_body]
fn freeze(v: Vec<u8>) -> (b: bytes::Bytes)
    ensures
        bytes_held(b) == v@,
{
    bytes::Bytes::from(v)
}

/// `bytes::Bytes::as_ref`: all that it holds.
#[verifier::external_body]
fn thaw(b: &bytes::Bytes) -> (s: &[u8])
    ensures
        s@ == bytes_held(*b),
{
    b.as_ref()
}

/// `bytes::Bytes::clone`: the same bytes, which are shared and not copied.
#[verifier::external_body]
fn refreeze(b: &bytes::Bytes) -> (c: bytes::Bytes)
    ensures
        bytes_held(c) == bytes_held(*b),
{
    b.clone()
}

/// `Vec::capacity` of std: how much the vector has allocated, which is at least its length.
#[verifier::external_body]
fn allocated(v: &Vec<u8>) -> (n: usize)
    ensures
        n >= v@.len(),
{
    v.capacity()
}

/// A payload and the reservations for it, as a value.
#[verifier::ext_equal]
pub struct LeaseView {
    pub bytes: Seq<u8>,
    pub permits: Seq<PermitView>,
}

/// A payload and the reservations for it. Who shares it shares the bytes and every reservation.
pub struct PayloadLease {
    bytes: bytes::Bytes,
    permits: Vec<Permit>,
}

/// The views of a list of permits.
pub open spec fn permit_views(s: Seq<Permit>) -> Seq<PermitView> {
    Seq::new(s.len(), |i: int| s[i]@)
}

impl View for PayloadLease {
    type V = LeaseView;

    closed spec fn view(&self) -> LeaseView {
        LeaseView { bytes: bytes_held(self.bytes), permits: permit_views(self.permits@) }
    }
}

impl PayloadLease {
    pub fn as_bytes(&self) -> (s: &[u8])
        ensures
            s@ == self@.bytes,
    {
        thaw(&self.bytes)
    }

    pub fn len(&self) -> (n: usize)
        ensures
            n == self@.bytes.len(),
    {
        self.as_bytes().len()
    }

    pub fn is_empty(&self) -> (r: bool)
        ensures
            r == (self@.bytes.len() == 0),
    {
        self.as_bytes().len() == 0
    }

    /// The payload in an allocation of its own, which is the caller's responsibility.
    pub fn copy_payload(&self) -> (v: Vec<u8>)
        ensures
            v@ == self@.bytes,
    {
        slice_to_vec(self.as_bytes())
    }

    /// A payload for which reservations were made before.
    pub fn received(bytes: Vec<u8>, permits: Vec<Permit>) -> (l: PayloadLease)
        ensures
            l@ == (LeaseView { bytes: bytes@, permits: permit_views(permits@) }),
    {
        PayloadLease { bytes: freeze(bytes), permits }
    }

    /// The reservations for this payload, which it gives up.
    pub fn into_permits(self) -> (v: Vec<Permit>)
        ensures
            permit_views(v@) == self@.permits,
    {
        self.permits
    }

    /// The same payload under other shares in its reservations.
    pub fn with_permits(&self, permits: Vec<Permit>) -> (l: PayloadLease)
        ensures
            l@ == (LeaseView { bytes: self@.bytes, permits: permit_views(permits@) }),
    {
        PayloadLease { bytes: refreeze(&self.bytes), permits }
    }

    /// The reservations for this payload.
    pub fn permits(&self) -> (v: &Vec<Permit>)
        ensures
            permit_views(v@) == self@.permits,
    {
        &self.permits
    }
}

/// Where payloads are kept, as a value.
#[verifier::ext_equal]
pub struct PoolView {
    pub budget: BudgetView,
    pub max_payload: usize,
}

/// Where payloads are kept.
pub struct BufferPool {
    budget: Budget,
    max_payload: usize,
}

impl View for BufferPool {
    type V = PoolView;

    closed spec fn view(&self) -> PoolView {
        PoolView { budget: self.budget@, max_payload: self.max_payload }
    }
}

/// Why a payload of `len` bytes in an allocation of `size` bytes cannot be kept, if it cannot.
pub open spec fn pool_refusal(p: PoolView, len: nat, size: nat) -> Option<Error> {
    if len > p.max_payload {
        Some(Error::MessageTooLarge)
    } else if p.budget.used + size + PAYLOAD_OVERHEAD > p.budget.limit {
        Some(Error::QueueFull)
    } else {
        None
    }
}

/// The pool after a payload in an allocation of `size` bytes is kept.
pub open spec fn after_keeping(p: PoolView, size: nat) -> PoolView {
    PoolView { budget: after_reserve(p.budget, (size + PAYLOAD_OVERHEAD) as usize), ..p }
}

/// A payload that a pool keeps.
pub open spec fn kept_lease(p: PoolView, bytes: Seq<u8>) -> LeaseView {
    LeaseView {
        bytes,
        permits: seq![next_permit(p.budget)],
    }
}

/// A budget after several shares are released.
pub open spec fn after_releases(b: BudgetView, s: Seq<PermitView>) -> BudgetView
    decreases s.len(),
{
    if s.len() == 0 {
        b
    } else {
        after_release(after_releases(b, s.drop_last()), s.last())
    }
}

impl BufferPool {
    /// Whether this pool is in order.
    pub open spec fn wf(self) -> bool {
        budget_sound(self@.budget)
    }

    pub fn new(max_bytes: usize, max_payload: usize) -> (p: BufferPool)
        ensures
            p.wf(),
            p@.max_payload == max_payload,
            p@.budget.limit == max_bytes,
            p@.budget.used == 0,
            p@.budget.peak == 0,
            p@.budget.reservations == Map::<u64, (usize, usize)>::empty(),
    {
        BufferPool { budget: Budget::new(max_bytes), max_payload }
    }

    pub fn resident_bytes(&self) -> (n: usize)
        ensures
            n == self@.budget.used,
    {
        self.budget.used()
    }

    pub fn peak_bytes(&self) -> (n: usize)
        ensures
            n == self@.budget.peak,
    {
        self.budget.peak()
    }

    /// Sets memory aside for a payload that is to come in.
    pub fn reserve(&mut self, n: usize) -> (r: Result<Permit, Error>)
        requires
            old(self).wf(),
        ensures
            final(self).wf(),
            match r {
                Ok(p) => old(self)@.budget.used + n <= old(self)@.budget.limit && p@ == next_permit(
                    old(self)@.budget,
                ) && final(self)@ == (PoolView {
                    budget: after_reserve(old(self)@.budget, n),
                    ..old(self)@
                }),
                Err(e) => e == Error::QueueFull && old(self)@.budget.used + n
                    > old(self)@.budget.limit && final(self)@ == old(self)@,
            },
    {
        self.budget.reserve(n)
    }

    /// Lets go of memory that no payload came in for.
    pub fn give_back(&mut self, p: Permit)
        requires
            old(self).wf(),
        ensures
            final(self).wf(),
            final(self)@ == (PoolView {
                budget: after_release(old(self)@.budget, p@),
                ..old(self)@
            }),
    {
        self.budget.release(p);
    }

    /// Keeps a payload that takes `size` bytes.
    fn keep(&mut self, bytes: Vec<u8>, size: usize) -> (r: Result<PayloadLease, Error>)
        requires
            old(self).wf(),
        ensures
            final(self).wf(),
            match pool_refusal(old(self)@, bytes@.len(), size as nat) {
                Some(e) => r is Err && r->Err_0 == e && final(self)@ == old(self)@,
                None => r is Ok && r->Ok_0@ == kept_lease(old(self)@, bytes@) && final(self)@
                    == after_keeping(old(self)@, size as nat),
            },
    {
        if bytes.len() > self.max_payload {
            return Err(Error::MessageTooLarge);
        }
        let charge = match size.checked_add(PAYLOAD_OVERHEAD) {
            Some(charge) => charge,
            None => return Err(Error::QueueFull),
        };
        let ghost before = self@;
        let p = self.budget.reserve(charge)?;
        let permits: Vec<Permit> = vec![p];
        let lease = PayloadLease::received(bytes, permits);
        assert(lease@ =~= kept_lease(before, bytes@));
        Ok(lease)
    }

    /// Keeps a copy of a payload.
    pub fn copy_from_slice(&mut self, bytes: &[u8]) -> (r: Result<PayloadLease, Error>)
        requires
            old(self).wf(),
        ensures
            final(self).wf(),
            match pool_refusal(old(self)@, bytes@.len(), bytes@.len()) {
                Some(e) => r is Err && r->Err_0 == e && final(self)@ == old(self)@,
                None => r is Ok && r->Ok_0@ == kept_lease(old(self)@, bytes@) && final(self)@
                    == after_keeping(old(self)@, bytes@.len()),
            },
    {
        if bytes.len() > self.max_payload {
            return Err(Error::MessageTooLarge);
        }
        self.keep(slice_to_vec(bytes), bytes.len())
    }

    /// Takes a payload over, in an allocation that takes `size` bytes.
    pub fn take_over(&mut self, bytes: Vec<u8>, size: usize) -> (r: Result<PayloadLease, Error>)
        requires
            old(self).wf(),
        ensures
            final(self).wf(),
            match pool_refusal(old(self)@, bytes@.len(), size as nat) {
                Some(e) => r is Err && r->Err_0 == e && final(self)@ == old(self)@,
                None => r is Ok && r->Ok_0@ == kept_lease(old(self)@, bytes@) && final(self)@
                    == after_keeping(old(self)@, size as nat),
            },
    {
        self.keep(bytes, size)
    }

    /// Takes ownership without copying; the allocation's capacity is charged, not just its length.
    pub fn from_vec(&mut self, bytes: Vec<u8>) -> (r: Result<PayloadLease, Error>)
        requires
            old(self).wf(),
        ensures
            final(self).wf(),
            bytes@.len() > old(self)@.max_payload ==> r == Err::<PayloadLease, Error>(
                Error::MessageTooLarge,
            ),
            kept_somehow(old(self)@, final(self)@, bytes@, r),
    {
        let size: usize = allocated(&bytes);
        let ghost contents = bytes@;
        let r = self.take_over(bytes, size);
        assert(kept_in(old(self)@, self@, contents, size, r));
        r
    }

    /// Whether a payload is kept in this pool.
    pub fn owns(&self, payload: &PayloadLease) -> (r: bool)
        ensures
            r == (exists|i: int|
                0 <= i < payload@.permits.len() && (#[trigger] payload@.permits[i]).budget
                    == self@.budget.id),
    {
        let mut i: usize = 0;
        while i < payload.permits.len()
            invariant
                i <= payload.permits@.len(),
                forall|j: int|
                    0 <= j < i ==> (#[trigger] payload@.permits[j]).budget != self@.budget.id,
            decreases payload.permits@.len() - i,
        {
            if same_bytes(&payload.permits[i].budget, &self.budget.id) {
                assert(payload@.permits[i as int].budget == self@.budget.id);
                return true;
            }
            assert(payload@.permits[i as int] == payload.permits@[i as int]@);
            i = i + 1;
        }
        false
    }

    /// Lets another hold a payload of this pool. `None` where the payload has not just one
    /// reservation and that in this pool, or no number can count the holders.
    pub fn share(&mut self, payload: &PayloadLease) -> (r: Option<PayloadLease>)
        requires
            old(self).wf(),
        ensures
            final(self).wf(),
            ({
                let p = payload@.permits[0];
                let b = old(self)@.budget;
                match r {
                    Some(l) => payload@.permits.len() == 1 && permit_held(b, p) && b.reservations[p.ticket].1 < usize::MAX && l@
                        == payload@ && final(self)@ == (PoolView {
                        budget: after_share(b, p),
                        ..old(self)@
                    }),
                    None => (payload@.permits.len() != 1 || !permit_held(b, p)
                        || b.reservations[p.ticket].1 == usize::MAX) && final(self)@ == old(self)@,
                }
            }),
    {
        if payload.permits.len() != 1 {
            return None;
        }
        match self.budget.share(&payload.permits[0]) {
            Some(p) => {
                let permits: Vec<Permit> = vec![p];
                let l = payload.with_permits(permits);
                assert(l@ =~= payload@);
                Some(l)
            },
            None => None,
        }
    }

    /// Lets a payload go. What was set aside for it here is free again if nobody else holds it.
    pub fn release(&mut self, payload: PayloadLease)
        requires
            old(self).wf(),
        ensures
            final(self).wf(),
            final(self)@ == (PoolView {
                budget: after_releases(old(self)@.budget, payload@.permits),
                ..old(self)@
            }),
    {
        let ghost all = payload@.permits;
        let ghost start = self@;
        let mut permits = payload.into_permits();
        assert(all.take(0) =~= Seq::empty());
        let n: usize = permits.len();
        let mut i: usize = 0;
        while i < n
            invariant
                i <= n,
                n == all.len(),
                permits@.len() == n - i,
                forall|j: int| 0 <= j < permits@.len() ==> (#[trigger] permits@[j])@ == all[i + j],
                self.wf(),
                self@ == (PoolView {
                    budget: after_releases(start.budget, all.take(i as int)),
                    ..start
                }),
            decreases n - i,
        {
            let p = permits.remove(0);
            proof {
                let next = all.take(i + 1);
                assert(next.drop_last() =~= all.take(i as int));
                assert(next.last() == all[i as int]);
                assert(p@ == all[i + 0]);
            }
            self.budget.release(p);
            i = i + 1;
        }
        assert(all.take(i as int) =~= all);
    }
}

/// Whether a payload was taken over in an allocation of `size` bytes, with this result.
pub open spec fn kept_in(
    before: PoolView,
    after: PoolView,
    bytes: Seq<u8>,
    size: usize,
    r: Result<PayloadLease, Error>,
) -> bool {
    &&& size >= bytes.len()
    &&& match pool_refusal(before, bytes.len(), size as nat) {
        Some(e) => r is Err && r->Err_0 == e && after == before,
        None => r is Ok && r->Ok_0@ == kept_lease(before, bytes) && after == after_keeping(
            before,
            size as nat,
        ),
    }
}

/// Whether a payload was taken over in whatever allocation it came in, with this result.
pub open spec fn kept_somehow(
    before: PoolView,
    after: PoolView,
    bytes: Seq<u8>,
    r: Result<PayloadLease, Error>,
) -> bool {
    exists|size: usize| #[trigger] kept_in(before, after, bytes, size, r)
}

} // verus!
