//! A record of what was asked for, and of what came of it.
use crate::admission::{HostStorage, Meter};
use crate::crypto::EndpointId;
use crate::error::Error;
use crate::publishing::{OpenedView, Receipts};
use std::sync::Arc;
use vstd::prelude::*;

verus! {

/// Memory that was asked for, as a value: how much, and why it was refused, if it was.
#[verifier::ext_equal]
pub struct AskedView {
    pub bytes: nat,
    pub refusal: Option<Error>,
}

/// A state that was handed to storage, as a value, and what storage answered.
#[verifier::ext_equal]
pub struct SavedView {
    pub bytes: Seq<u8>,
    pub result: Result<(), Error>,
}

/// Why something was refused, if it was.
pub open spec fn refusal<T>(r: Result<T, Error>) -> Option<Error> {
    match r {
        Ok(_) => None,
        Err(e) => Some(e),
    }
}

/// What a record that only grows has got since it was `before`.
pub open spec fn since<E>(before: Seq<E>, after: Seq<E>) -> Seq<E> {
    after.skip(before.len() as int)
}

/// Whether what was asked for is what was due, one after the other until something was refused, and
/// nothing more.
pub open spec fn asked_in_turn(asked: Seq<AskedView>, due: Seq<nat>, r: Result<(), Error>) -> bool {
    &&& asked.len() <= due.len()
    &&& forall|i: int| 0 <= i < asked.len() ==> (#[trigger] asked[i]).bytes == due[i]
    &&& forall|i: int| 0 <= i < asked.len() - 1 ==> (#[trigger] asked[i]).refusal is None
    &&& match r {
        Ok(_) => asked.len() == due.len() && (asked.len() > 0 ==> asked.last().refusal is None),
        Err(e) => asked.len() > 0 && asked.last().refusal == Some(e),
    }
}

/// Someone who is asked for things, and all that was asked for, in order. Nothing is asked for but
/// through this record.
#[verifier::reject_recursive_types(E)]
pub struct Ledger<S, E> {
    source: S,
    log: Ghost<Seq<E>>,
}

impl<S, E> Ledger<S, E> {
    /// What was asked for, in order, and what came of it.
    pub closed spec fn log(&self) -> Seq<E> {
        self.log@
    }

    /// Who is asked.
    pub closed spec fn source(&self) -> S {
        self.source
    }

    pub fn new(source: S) -> (l: Self)
        ensures
            l.log().len() == 0,
            l.source() == source,
    {
        Ledger { source, log: Ghost(Seq::empty()) }
    }

    pub fn into_source(self) -> (s: S)
        ensures
            s == self.source(),
    {
        self.source
    }
}

impl<M> Ledger<M, AskedView> {
    /// Asks for memory.
    pub fn reserve<P>(&mut self, n: usize) -> (r: Result<P, Error>) where M: Meter<P>
        ensures
            final(self).log() == old(self).log().push(
                AskedView { bytes: n as nat, refusal: refusal(r) },
            ),
    {
        let r = self.source.reserve(n);
        proof {
            self.log@ = self.log@.push(AskedView { bytes: n as nat, refusal: refusal(r) });
        }
        r
    }
}

impl Ledger<Arc<dyn HostStorage>, SavedView> {
    /// Hands a state to storage.
    pub fn save(&mut self, bytes: &[u8]) -> (r: Result<(), Error>)
        ensures
            final(self).log() == old(self).log().push(SavedView { bytes: bytes@, result: r }),
    {
        let r = self.source.save(bytes);
        proof {
            self.log@ = self.log@.push(SavedView { bytes: bytes@, result: r });
        }
        r
    }
}

impl<R, H> Ledger<R, OpenedView<H>> {
    /// Asks for a receipt.
    pub fn open(&mut self, peer: &EndpointId, n: usize) -> (r: Result<(H, H), Error>) where
        R: Receipts<H>,

        ensures
            final(self).log() == old(self).log().push(
                OpenedView { peer: peer@, bytes: n as nat, result: r },
            ),
    {
        let r = self.source.open(peer, n);
        proof {
            self.log@ = self.log@.push(OpenedView { peer: peer@, bytes: n as nat, result: r });
        }
        r
    }
}

} // verus!
