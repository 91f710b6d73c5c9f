//! Publishing as a whole: a message gets its number, its receipts and its way out.
use crate::credits::scheduled_somehow;
use crate::crypto::EndpointId;
use crate::endpoint::{PublishOptions, RecipientOutcome, LAST_MOMENT};
use crate::error::Error;
use crate::ledger::{since, Ledger};
use crate::message::{DeliveryMode, MessageId, MessageIdView, Topic};
use crate::outgoing::{
    after_numbering, first_outcomes, outcome_views, placed_upto, PublicationView,
};
use crate::owner::{Owner, OwnerView};
use vstd::prelude::*;

verus! {

/// What the receipt of one recipient takes beside the signed envelope.
pub const RECEIPT_OVERHEAD: usize = 2048;

/// A receipt that was to be opened: whose it is, what was to be set aside for it, and what came of
/// it.
#[verifier::ext_equal]
pub struct OpenedView<H> {
    pub peer: Seq<u8>,
    pub bytes: nat,
    pub result: Result<(H, H), Error>,
}

/// Where receipts are kept.
pub trait Receipts<H> {
    /// Opens the receipt of one recipient, for which `n` bytes are set aside: gives what is
    /// attached to the delivery and to the memory of it, or says why it cannot.
    fn open(&mut self, peer: &EndpointId, n: usize) -> Result<(H, H), Error>;
}

/// What is set aside for each receipt of a message.
pub open spec fn receipt_charge(m: PublicationView) -> nat {
    m.signed.len() + RECEIPT_OVERHEAD as nat
}

/// Whether these are the receipts of the first of those who should get a message, one for each of
/// them in order, and every one but the last could be opened.
pub open spec fn receipts_of<H>(m: PublicationView, s: Seq<OpenedView<H>>) -> bool {
    &&& s.len() <= m.recipients.len()
    &&& forall|i: int|
        0 <= i < s.len() ==> (#[trigger] s[i]).peer == m.recipients[i].0 && s[i].bytes
            == receipt_charge(m)
    &&& forall|i: int| 0 <= i < s.len() - 1 ==> (#[trigger] s[i]).result is Ok
}

/// What is attached to the deliveries whose receipts were opened.
pub open spec fn attachments<H>(s: Seq<OpenedView<H>>) -> Seq<(H, H)> {
    Seq::new(s.len(), |i: int| s[i].result->Ok_0)
}

/// What comes of publishing, as a value: the identity of the message, and what became of it at each
/// of those who should get it.
pub open spec fn published_outcome(
    r: Result<(MessageId, Vec<(EndpointId, RecipientOutcome)>), Error>,
) -> Result<(MessageIdView, Seq<(Seq<u8>, RecipientOutcome)>), Error> {
    match r {
        Ok((id, outcomes)) => Ok((id@, outcome_views(outcomes@))),
        Err(e) => Err(e),
    }
}

/// The state after a numbered message is put on its way to all who should get it.
pub open spec fn put_on_its_way<H>(
    v: OwnerView<H>,
    m: PublicationView,
    held: Seq<(H, H)>,
    now: u128,
) -> OwnerView<H> {
    placed_upto(v, m, held, m.recipients.len(), now)
}

/// Whether one state comes from another by publishing, with this result, where `opened` are the
/// receipts that were to be opened meanwhile. A message that cannot be published is refused; where
/// one of its receipts could not be opened, it has used up its number, and nobody gets it; else it
/// is put on its way, and everything that can be written is.
pub open spec fn published<H>(
    v: OwnerView<H>,
    w: OwnerView<H>,
    topic: Seq<char>,
    payload: Seq<u8>,
    mode: DeliveryMode,
    lifetime: nat,
    format: Seq<char>,
    clock: Option<u64>,
    now: u128,
    opened: Seq<OpenedView<H>>,
    r: Result<(MessageIdView, Seq<(Seq<u8>, RecipientOutcome)>), Error>,
) -> bool {
    let (numbered, outcome) = after_numbering(v, topic, payload, mode, lifetime, format, clock);
    match outcome {
        Err(e) => opened.len() == 0 && w == numbered && r == Err::<
            (MessageIdView, Seq<(Seq<u8>, RecipientOutcome)>),
            Error,
        >(e),
        Ok(m) => if receipt_charge(m) > usize::MAX {
            opened.len() == 0 && w == numbered && r == Err::<
                (MessageIdView, Seq<(Seq<u8>, RecipientOutcome)>),
                Error,
            >(Error::QueueFull)
        } else {
            &&& receipts_of(m, opened)
            &&& match r {
                Err(e) => {
                    &&& opened.len() > 0 && opened.last().result == Err::<(H, H), Error>(e)
                    &&& w == numbered
                },
                Ok((id, outcomes)) => {
                    &&& opened.len() == m.recipients.len()
                    &&& opened.len() > 0 ==> opened.last().result is Ok
                    &&& id == m.envelope.id
                    &&& outcomes == first_outcomes(numbered, m, attachments(opened), now)
                    &&& scheduled_somehow(
                        put_on_its_way(numbered, m, attachments(opened), now),
                        w,
                        clock,
                        now,
                    )
                },
            }
        },
    }
}

impl<H> Owner<H> {
    /// Publishes a message to those who are subscribed to its topic. All receipts are opened before
    /// it is put on its way to anyone, so that a call that fails never hides a recipient.
    pub fn publish<R: Receipts<H>>(
        &mut self,
        topic: Topic,
        payload: &[u8],
        options: PublishOptions,
        clock: Option<u64>,
        now: u128,
        receipts: &mut Ledger<R, OpenedView<H>>,
    ) -> (r: Result<(MessageId, Vec<(EndpointId, RecipientOutcome)>), Error>)
        requires
            now <= LAST_MOMENT,
        ensures
            published(
                old(self)@,
                final(self)@,
                topic@,
                payload@,
                options.mode,
                options.lifetime@,
                options.format@,
                clock,
                now,
                since(old(receipts).log(), final(receipts).log()),
                published_outcome(r),
            ),
            old(receipts).log().is_prefix_of(final(receipts).log()),
    {
        let ghost before = receipts.log();
        assert(since(before, before) =~= Seq::empty());
        let ghost asked = after_numbering(
            self@,
            topic@,
            payload@,
            options.mode,
            options.lifetime@,
            options.format@,
            clock,
        );
        let PublishOptions { mode, lifetime, format } = options;
        let m = self.number(topic, payload, mode, lifetime, format, clock)?;
        let charge: usize = match m.signed.len().checked_add(RECEIPT_OVERHEAD) {
            Some(n) => n,
            None => return Err(Error::QueueFull),
        };
        let ghost numbered = self@;
        let mut held: Vec<(H, H)> = Vec::new();
        let mut i: usize = 0;
        while i < m.recipients.len()
            invariant
                i <= m.recipients@.len(),
                held@.len() == i,
                charge == receipt_charge(m@),
                before == old(receipts).log(),
                before.is_prefix_of(receipts.log()),
                since(before, receipts.log()).len() == i,
                receipts_of(m@, since(before, receipts.log())),
                forall|j: int|
                    0 <= j < i ==> (#[trigger] since(before, receipts.log())[j]).result == Ok::<
                        (H, H),
                        Error,
                    >(held@[j]),
                self@ == numbered,
                asked == (numbered, Ok::<PublicationView, Error>(m@)),
                asked == after_numbering(
                    old(self)@,
                    topic@,
                    payload@,
                    options.mode,
                    options.lifetime@,
                    options.format@,
                    clock,
                ),
            decreases m.recipients@.len() - i,
        {
            let ghost so_far = receipts.log();
            let ghost had = since(before, so_far);
            let (peer, _) = &m.recipients[i];
            let opened = receipts.open(peer, charge);
            proof {
                let entry = OpenedView { peer: peer@, bytes: charge as nat, result: opened };
                let all = since(before, receipts.log());
                assert(all =~= had.push(entry));
                assert(receipts.log().take(before.len() as int) =~= so_far.take(
                    before.len() as int,
                ));
                assert(m@.recipients[i as int].0 == peer@);
                assert forall|j: int| 0 <= j < all.len() implies (#[trigger] all[j]).peer
                    == m@.recipients[j].0 && all[j].bytes == receipt_charge(m@) by {
                    if j < i {
                        assert(all[j] == had[j]);
                    }
                }
                assert forall|j: int| 0 <= j < all.len() - 1 implies (#[trigger] all[j]).result
                    is Ok by {
                    assert(all[j] == had[j]);
                }
            }
            held.push(opened?);
            proof {
                let all = since(before, receipts.log());
                assert forall|j: int| 0 <= j < i + 1 implies (#[trigger] all[j]).result == Ok::<
                    (H, H),
                    Error,
                >(held@[j]) by {
                    if j < i {
                        assert(all[j] == had[j]);
                    }
                }
            }
            i = i + 1;
        }
        let ghost given = held@;
        assert(given =~= attachments(since(before, receipts.log())));
        let outcomes = self.place(&m, held, now);
        assert(self@ == put_on_its_way(numbered, m@, given, now));
        self.schedule(clock, now);
        Ok((m.envelope.id, outcomes))
    }
}

} // verus!
