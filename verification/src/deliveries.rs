//! Messages on their way to their recipients, and what came of them.
use crate::auth::{saturating_sum, Certificate, CertificateView};
use crate::crypto::{EndpointId, Id};
use crate::endpoint::RecipientOutcome;
use crate::error::Error;
use crate::message::{
    compare_messages, lemma_message_total, lemma_message_transitive, lemma_order_step,
    message_less, Envelope, EnvelopeView, MessageId, MessageIdView,
};
use crate::octets::{bytes_less, lemma_bytes_less_irreflexive, lemma_bytes_less_total, Relation};
use crate::ordered::{Key, OrderedMap};
use vstd::prelude::*;

verus! {

// Which delivery

/// A message on its way to one subscription of one peer, as a value.
#[verifier::ext_equal]
pub struct DeliveryKeyView {
    pub peer: Seq<u8>,
    pub sub: Seq<u8>,
    pub id: MessageIdView,
}

/// A message on its way to one subscription of one peer.
#[derive(Debug)]
pub struct DeliveryKey {
    pub peer: EndpointId,
    pub sub: Id,
    pub id: MessageId,
}

impl View for DeliveryKey {
    type V = DeliveryKeyView;

    open spec fn view(&self) -> DeliveryKeyView {
        DeliveryKeyView { peer: self.peer@, sub: self.sub@, id: self.id@ }
    }
}

impl Clone for DeliveryKey {
    fn clone(&self) -> (k: Self)
        ensures
            k@ == self@,
    {
        DeliveryKey { peer: self.peer, sub: self.sub, id: self.id.clone() }
    }
}

/// Deliveries in order of their fields, the first that differs deciding.
pub open spec fn delivery_less(a: DeliveryKeyView, b: DeliveryKeyView) -> bool {
    if a.peer != b.peer {
        bytes_less(a.peer, b.peer)
    } else if a.sub != b.sub {
        bytes_less(a.sub, b.sub)
    } else {
        message_less(a.id, b.id)
    }
}

impl Key for DeliveryKey {
    open spec fn less(a: DeliveryKeyView, b: DeliveryKeyView) -> bool {
        delivery_less(a, b)
    }

    proof fn less_irreflexive(a: DeliveryKeyView) {
    }

    proof fn less_transitive(a: DeliveryKeyView, b: DeliveryKeyView, c: DeliveryKeyView) {
        lemma_order_step(a.peer, b.peer, c.peer);
        lemma_order_step(a.sub, b.sub, c.sub);
        if message_less(a.id, b.id) && message_less(b.id, c.id) {
            lemma_message_transitive(a.id, b.id, c.id);
        }
    }

    proof fn less_total(a: DeliveryKeyView, b: DeliveryKeyView) {
        lemma_bytes_less_total(a.peer, b.peer);
        lemma_bytes_less_total(a.sub, b.sub);
        lemma_message_total(a.id, b.id);
    }

    fn compare(&self, other: &Self) -> (r: Relation) {
        proof {
            lemma_bytes_less_irreflexive(self.peer@);
            lemma_bytes_less_irreflexive(self.sub@);
        }
        match self.peer.compare(&other.peer) {
            Relation::Less => return Relation::Less,
            Relation::Greater => return Relation::Greater,
            Relation::Same => {},
        }
        match self.sub.compare(&other.sub) {
            Relation::Less => return Relation::Less,
            Relation::Greater => return Relation::Greater,
            Relation::Same => {},
        }
        compare_messages(&self.id, &other.id)
    }
}

/// A message at one subscription, as a value.
#[verifier::ext_equal]
pub struct RecordKeyView {
    pub sub: Seq<u8>,
    pub id: MessageIdView,
}

/// A message at one subscription.
#[derive(Debug)]
pub struct RecordKey {
    pub sub: Id,
    pub id: MessageId,
}

impl View for RecordKey {
    type V = RecordKeyView;

    open spec fn view(&self) -> RecordKeyView {
        RecordKeyView { sub: self.sub@, id: self.id@ }
    }
}

impl Clone for RecordKey {
    fn clone(&self) -> (k: Self)
        ensures
            k@ == self@,
    {
        RecordKey { sub: self.sub, id: self.id.clone() }
    }
}

/// Records in order of their fields, the first that differs deciding.
pub open spec fn record_less(a: RecordKeyView, b: RecordKeyView) -> bool {
    if a.sub != b.sub {
        bytes_less(a.sub, b.sub)
    } else {
        message_less(a.id, b.id)
    }
}

impl Key for RecordKey {
    open spec fn less(a: RecordKeyView, b: RecordKeyView) -> bool {
        record_less(a, b)
    }

    proof fn less_irreflexive(a: RecordKeyView) {
    }

    proof fn less_transitive(a: RecordKeyView, b: RecordKeyView, c: RecordKeyView) {
        lemma_order_step(a.sub, b.sub, c.sub);
        if message_less(a.id, b.id) && message_less(b.id, c.id) {
            lemma_message_transitive(a.id, b.id, c.id);
        }
    }

    proof fn less_total(a: RecordKeyView, b: RecordKeyView) {
        lemma_bytes_less_total(a.sub, b.sub);
        lemma_message_total(a.id, b.id);
    }

    fn compare(&self, other: &Self) -> (r: Relation) {
        proof {
            lemma_bytes_less_irreflexive(self.sub@);
        }
        match self.sub.compare(&other.sub) {
            Relation::Less => return Relation::Less,
            Relation::Greater => return Relation::Greater,
            Relation::Same => {},
        }
        compare_messages(&self.id, &other.id)
    }
}

// Deliveries

/// A delivery that has not ended, as a value. Moments are in nanoseconds.
#[verifier::ext_equal]
pub struct PendingView<H> {
    pub recipient: CertificateView,
    pub signed: Seq<u8>,
    pub envelope: EnvelopeView,
    pub deadline: u128,
    pub next: u128,
    pub attempts: u32,
    pub writing: bool,
    pub held: H,
    pub memory: H,
}

/// A delivery that has not ended. `H` is what its owner must keep for it: its payload, its
/// reservations, and the way to tell of its outcome.
pub struct Pending<H> {
    /// The certificate that the recipient was last seen with.
    pub recipient: Certificate,
    pub signed: Vec<u8>,
    pub envelope: Envelope,
    pub deadline: u128,
    /// When the next attempt is due.
    pub next: u128,
    pub attempts: u32,
    /// Whether an attempt is under way.
    pub writing: bool,
    pub held: H,
    pub memory: H,
}

impl<H> View for Pending<H> {
    type V = PendingView<H>;

    open spec fn view(&self) -> PendingView<H> {
        PendingView {
            recipient: self.recipient@,
            signed: self.signed@,
            envelope: self.envelope@,
            deadline: self.deadline,
            next: self.next,
            attempts: self.attempts,
            writing: self.writing,
            held: self.held,
            memory: self.memory,
        }
    }
}

/// That a delivery ended, as a value.
#[verifier::ext_equal]
pub struct ClosedView<H> {
    pub expires: u64,
    pub memory: H,
}

/// That a delivery ended, kept for late acknowledgements until `expires`.
pub struct Closed<H> {
    pub expires: u64,
    pub memory: H,
}

impl<H> View for Closed<H> {
    type V = ClosedView<H>;

    open spec fn view(&self) -> ClosedView<H> {
        ClosedView { expires: self.expires, memory: self.memory }
    }
}

/// How a delivery ended, as a value.
#[verifier::ext_equal]
pub struct EndedView<H> {
    pub outcome: RecipientOutcome,
    pub held: H,
}

/// How a delivery ended, until its publisher is told.
pub struct Ended<H> {
    pub outcome: RecipientOutcome,
    pub held: H,
}

impl<H> View for Ended<H> {
    type V = EndedView<H>;

    open spec fn view(&self) -> EndedView<H> {
        EndedView { outcome: self.outcome, held: self.held }
    }
}

/// All deliveries of an endpoint, as a value.
#[verifier::ext_equal]
pub struct DeliveriesView<H> {
    pub pending: Map<DeliveryKeyView, PendingView<H>>,
    pub closed: Map<DeliveryKeyView, ClosedView<H>>,
    pub ended: Map<DeliveryKeyView, EndedView<H>>,
}

/// All deliveries of an endpoint: those on their way, those that are over after at least one
/// attempt, and the outcomes that their publishers have not been told yet.
pub struct Deliveries<H> {
    pub pending: OrderedMap<DeliveryKey, Pending<H>>,
    pub closed: OrderedMap<DeliveryKey, Closed<H>>,
    pub ended: OrderedMap<DeliveryKey, Ended<H>>,
}

impl<H> View for Deliveries<H> {
    type V = DeliveriesView<H>;

    open spec fn view(&self) -> DeliveriesView<H> {
        DeliveriesView { pending: self.pending@, closed: self.closed@, ended: self.ended@ }
    }
}

/// What ends a delivery, if anything does.
pub type Ending<H> = spec_fn(DeliveryKeyView, PendingView<H>) -> Option<RecipientOutcome>;

/// Whether a delivery ends.
pub open spec fn ends<H>(d: DeliveriesView<H>, ending: Ending<H>, k: DeliveryKeyView) -> bool {
    d.pending.contains_key(k) && ending(k, d.pending[k]) is Some
}

/// What is kept of an attempted delivery that ends: until `grace` seconds beyond its expiry, with
/// what was reserved for it.
pub open spec fn closing<H>(p: PendingView<H>, grace: u64) -> ClosedView<H> {
    ClosedView { expires: saturating_sum(p.envelope.expires, grace), memory: p.memory }
}

/// Deliveries after those that `ending` names have ended. One that was attempted is remembered for
/// `grace` seconds beyond its expiry.
pub open spec fn after_ending<H>(
    d: DeliveriesView<H>,
    ending: Ending<H>,
    grace: u64,
) -> DeliveriesView<H> {
    DeliveriesView {
        pending: Map::new(
            |k: DeliveryKeyView| d.pending.contains_key(k) && !ends(d, ending, k),
            |k: DeliveryKeyView| d.pending[k],
        ),
        closed: Map::new(
            |k: DeliveryKeyView|
                d.closed.contains_key(k) || (ends(d, ending, k) && d.pending[k].attempts > 0),
            |k: DeliveryKeyView|
                if ends(d, ending, k) && d.pending[k].attempts > 0 {
                    closing(d.pending[k], grace)
                } else {
                    d.closed[k]
                },
        ),
        ended: Map::new(
            |k: DeliveryKeyView| d.ended.contains_key(k) || ends(d, ending, k),
            |k: DeliveryKeyView|
                if ends(d, ending, k) {
                    EndedView { outcome: ending(k, d.pending[k])->Some_0, held: d.pending[k].held }
                } else {
                    d.ended[k]
                },
        ),
    }
}

/// What ends one delivery.
pub open spec fn ending_one<H>(key: DeliveryKeyView, outcome: RecipientOutcome) -> Ending<H> {
    |k: DeliveryKeyView, p: PendingView<H>|
        if k == key {
            Some(outcome)
        } else {
            None
        }
}

/// The deliveries that end, with an outcome that `which` picks.
pub open spec fn ending_with<H>(
    d: DeliveriesView<H>,
    ending: Ending<H>,
    which: spec_fn(RecipientOutcome) -> bool,
) -> Set<DeliveryKeyView> {
    d.pending.dom().filter(
        |k: DeliveryKeyView|
            ending(k, d.pending[k]) is Some && which(ending(k, d.pending[k])->Some_0),
    )
}

/// Whether an outcome is that the message expired.
pub open spec fn is_expiry() -> spec_fn(RecipientOutcome) -> bool {
    |o: RecipientOutcome| o == RecipientOutcome::Failed(Error::DeliveryExpired)
}

/// `a + b`, or the largest number where that is too large.
pub fn saturating_total(a: u64, b: u64) -> (c: u64)
    ensures
        c == saturating_sum(a, b),
{
    if a > u64::MAX - b {
        u64::MAX
    } else {
        a + b
    }
}

impl<H> Deliveries<H> {
    pub fn new() -> (d: Self)
        ensures
            d@.pending == Map::<DeliveryKeyView, PendingView<H>>::empty(),
            d@.closed == Map::<DeliveryKeyView, ClosedView<H>>::empty(),
            d@.ended == Map::<DeliveryKeyView, EndedView<H>>::empty(),
    {
        Deliveries { pending: OrderedMap::new(), closed: OrderedMap::new(), ended: OrderedMap::new() }
    }

    /// Ends the `i`-th delivery.
    fn end_at(&mut self, i: usize, outcome: RecipientOutcome, grace: u64)
        requires
            i < old(self).pending.pairs().len(),
        ensures
            ({
                let key = old(self).pending.pairs()[i as int].0;
                let p = old(self).pending.pairs()[i as int].1;
                &&& final(self)@.pending == old(self)@.pending.remove(key)
                &&& final(self).pending.pairs() == old(self).pending.pairs().remove(i as int)
                &&& final(self)@.closed == if p.attempts > 0 {
                    old(self)@.closed.insert(key, closing(p, grace))
                } else {
                    old(self)@.closed
                }
                &&& final(self)@.ended == old(self)@.ended.insert(key, EndedView { outcome, held: p.held })
            }),
    {
        let (key, p) = self.pending.remove_at(i);
        let Pending { envelope, attempts, held, memory, .. } = p;
        if attempts > 0 {
            self.closed.insert(
                key.clone(),
                Closed { expires: saturating_total(envelope.expires, grace), memory },
            );
        }
        self.ended.insert(key, Ended { outcome, held });
    }

    /// Ends the deliveries that `f` names. The result counts those that expired.
    pub fn end_each<F: Fn(&DeliveryKey, &Pending<H>) -> Option<RecipientOutcome>>(
        &mut self,
        f: F,
        grace: u64,
        Ghost(ending): Ghost<Ending<H>>,
    ) -> (expired: usize)
        requires
            forall|k: &DeliveryKey, p: &Pending<H>| #[trigger] f.requires((k, p)),
            forall|k: &DeliveryKey, p: &Pending<H>, o: Option<RecipientOutcome>| #[trigger]
                f.ensures((k, p), o) ==> o == ending(k@, p@),
        ensures
            final(self)@ == after_ending(old(self)@, ending, grace),
            expired == ending_with(old(self)@, ending, is_expiry()).len(),
    {
        let ghost start = self@;
        let ghost mut seen = Set::<DeliveryKeyView>::empty();
        let mut expired: usize = 0;
        let mut i: usize = 0;
        proof {
            use_type_invariant(&self.pending);
            self.pending.lemma_pairs();
        }
        let total: usize = self.pending.len();
        assert(self@ =~= start);
        while i < self.pending.len()
            invariant
                start == old(self)@,
                i <= self.pending.pairs().len(),
                forall|k: &DeliveryKey, p: &Pending<H>| #[trigger] f.requires((k, p)),
                forall|k: &DeliveryKey, p: &Pending<H>, o: Option<RecipientOutcome>| #[trigger]
                    f.ensures((k, p), o) ==> o == ending(k@, p@),
                // What is left is what was there, but for deliveries that end.
                forall|k: DeliveryKeyView| #[trigger]
                    self@.pending.contains_key(k) ==> start.pending.contains_key(k)
                        && self@.pending[k] == start.pending[k],
                forall|k: DeliveryKeyView| #[trigger]
                    start.pending.contains_key(k) && !self@.pending.contains_key(k) ==> ends(
                        start,
                        ending,
                        k,
                    ),
                forall|j: int|
                    0 <= j < i ==> ending(
                        (#[trigger] self.pending.pairs()[j]).0,
                        self.pending.pairs()[j].1,
                    ) is None,
                // What is gone has been written down.
                forall|k: DeliveryKeyView| #[trigger]
                    self@.closed.contains_key(k) == (start.closed.contains_key(k) || (
                    start.pending.contains_key(k) && !self@.pending.contains_key(k)
                        && start.pending[k].attempts > 0)),
                forall|k: DeliveryKeyView| #[trigger]
                    self@.closed.contains_key(k) ==> self@.closed[k] == if (
                    start.pending.contains_key(k) && !self@.pending.contains_key(k)
                        && start.pending[k].attempts > 0) {
                        closing(start.pending[k], grace)
                    } else {
                        start.closed[k]
                    },
                forall|k: DeliveryKeyView| #[trigger]
                    self@.ended.contains_key(k) == (start.ended.contains_key(k) || (
                    start.pending.contains_key(k) && !self@.pending.contains_key(k))),
                forall|k: DeliveryKeyView| #[trigger]
                    self@.ended.contains_key(k) ==> self@.ended[k] == if (
                    start.pending.contains_key(k) && !self@.pending.contains_key(k)) {
                        EndedView {
                            outcome: ending(k, start.pending[k])->Some_0,
                            held: start.pending[k].held,
                        }
                    } else {
                        start.ended[k]
                    },
                // And counted.
                seen.finite(),
                expired == seen.len(),
                expired + self.pending.pairs().len() <= total,
                forall|k: DeliveryKeyView| #[trigger]
                    seen.contains(k) == (start.pending.contains_key(k)
                        && !self@.pending.contains_key(k) && is_expiry()(
                        ending(k, start.pending[k])->Some_0,
                    )),
            decreases self.pending.pairs().len() - i,
        {
            proof {
                use_type_invariant(&self.pending);
                self.pending.lemma_pairs();
            }
            let ghost before = self@;
            let ghost pairs = self.pending.pairs();
            let ghost key = pairs[i as int].0;
            let verdict = f(self.pending.key_at(i), self.pending.value_at(i));
            match verdict {
                None => {
                    i = i + 1;
                },
                Some(outcome) => {
                    let is_expired = match &outcome {
                        RecipientOutcome::Failed(Error::DeliveryExpired) => true,
                        _ => false,
                    };
                    assert(is_expired == is_expiry()(outcome));
                    self.end_at(i, outcome, grace);
                    if is_expired {
                        assert(!seen.contains(key));
                        expired = expired + 1;
                        proof {
                            seen = seen.insert(key);
                        }
                    }
                    proof {
                        assert forall|j: int| 0 <= j < i implies ending(
                            (#[trigger] self.pending.pairs()[j]).0,
                            self.pending.pairs()[j].1,
                        ) is None by {
                            assert(self.pending.pairs()[j] == pairs[j]);
                        }
                    }
                },
            }
        }
        proof {
            use_type_invariant(&self.pending);
            self.pending.lemma_pairs();
            assert forall|k: DeliveryKeyView| #[trigger] self@.pending.contains_key(k) implies !ends(
                start,
                ending,
                k,
            ) by {
                let j = choose|j: int|
                    0 <= j < self.pending.pairs().len() && (#[trigger] self.pending.pairs()[j]).0
                        == k;
                assert(self@.pending[k] == self.pending.pairs()[j].1);
            }
            assert(self@ =~= after_ending(start, ending, grace));
            assert(seen =~= ending_with(start, ending, is_expiry()));
        }
        expired
    }

    /// Ends one delivery, if it has not ended yet.
    pub fn end(&mut self, key: &DeliveryKey, outcome: RecipientOutcome, grace: u64)
        ensures
            final(self)@ == after_ending(old(self)@, ending_one(key@, outcome), grace),
    {
        let ghost start = self@;
        if let Some(p) = self.pending.remove(key) {
            let Pending { envelope, attempts, held, memory, .. } = p;
            if attempts > 0 {
                self.closed.insert(
                    key.clone(),
                    Closed { expires: saturating_total(envelope.expires, grace), memory },
                );
            }
            self.ended.insert(key.clone(), Ended { outcome, held });
        }
        assert(self@ =~= after_ending(start, ending_one(key@, outcome), grace));
    }

    /// Ends all deliveries, because the endpoint ends.
    pub fn abandon(&mut self)
        ensures
            final(self)@ == abandoned(old(self)@),
    {
        let ghost start = self@;
        while !self.pending.is_empty()
            invariant
                start == old(self)@,
                self@.closed == start.closed,
                forall|k: DeliveryKeyView| #[trigger]
                    self@.pending.contains_key(k) ==> start.pending.contains_key(k)
                        && self@.pending[k] == start.pending[k],
                forall|k: DeliveryKeyView| #[trigger]
                    self@.ended.contains_key(k) == (start.ended.contains_key(k) || (
                    start.pending.contains_key(k) && !self@.pending.contains_key(k))),
                forall|k: DeliveryKeyView| #[trigger]
                    self@.ended.contains_key(k) ==> self@.ended[k] == if (
                    start.pending.contains_key(k) && !self@.pending.contains_key(k)) {
                        cut_short(start.pending[k])
                    } else {
                        start.ended[k]
                    },
            decreases self.pending.pairs().len(),
        {
            proof {
                use_type_invariant(&self.pending);
                self.pending.lemma_pairs();
            }
            let ghost before = self@;
            let (key, p) = self.pending.remove_at(0);
            assert(before.pending.contains_key(key@));
            self.ended.insert(
                key,
                Ended { outcome: RecipientOutcome::Failed(Error::ShuttingDown), held: p.held },
            );
            assert forall|k: DeliveryKeyView| #[trigger]
                self@.pending.contains_key(k) implies start.pending.contains_key(k)
                && self@.pending[k] == start.pending[k] by {
                assert(before.pending.contains_key(k));
            }
            assert forall|k: DeliveryKeyView| #[trigger]
                self@.ended.contains_key(k) == (start.ended.contains_key(k) || (
                start.pending.contains_key(k) && !self@.pending.contains_key(k))) by {
                assert(before.ended.contains_key(k) == (start.ended.contains_key(k) || (
                start.pending.contains_key(k) && !before.pending.contains_key(k))));
            }
            assert forall|k: DeliveryKeyView| #[trigger]
                self@.ended.contains_key(k) implies self@.ended[k] == if (
            start.pending.contains_key(k) && !self@.pending.contains_key(k)) {
                cut_short(start.pending[k])
            } else {
                start.ended[k]
            } by {
                assert(before.ended.contains_key(k) == (start.ended.contains_key(k) || (
                start.pending.contains_key(k) && !before.pending.contains_key(k))));
            }
        }
        assert(self@ =~= abandoned(start));
    }
}

/// How a delivery ends because the endpoint ends.
pub open spec fn cut_short<H>(p: PendingView<H>) -> EndedView<H> {
    EndedView { outcome: RecipientOutcome::Failed(Error::ShuttingDown), held: p.held }
}

/// Deliveries after all of them have ended because the endpoint ends.
pub open spec fn abandoned<H>(d: DeliveriesView<H>) -> DeliveriesView<H> {
    DeliveriesView {
        pending: Map::empty(),
        closed: d.closed,
        ended: Map::new(
            |k: DeliveryKeyView| d.ended.contains_key(k) || d.pending.contains_key(k),
            |k: DeliveryKeyView|
                if d.pending.contains_key(k) {
                    cut_short(d.pending[k])
                } else {
                    d.ended[k]
                },
        ),
    }
}

} // verus!
