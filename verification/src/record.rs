//! The fields that the records of the library share, and lists of them.
use crate::cbor::{
    bytes_item, lemma_take_fixed, lemma_take_text, lemma_take_u, take_fixed, take_text, take_u,
    text_item, uint_item, Reader,
};
use crate::crypto::{is_public_key, EndpointId};
use crate::error::Error;
use crate::message::{mode_number, mode_of, valid_topic, DeliveryMode, Topic, MAX_TOPIC};
use crate::octets::lemma_concat_assoc;
use crate::ordered::{increasing, lemma_pushed, pairs_map, Key};
use vstd::prelude::*;

verus! {

// Single fields

/// Reads the version of a record, which must be `expected`.
pub open spec fn take_version(s: Seq<u8>, expected: u64) -> Result<Seq<u8>, Error> {
    match take_u(s) {
        Err(e) => Err(e),
        Ok((v, s)) => if v != expected {
            Err(Error::Protocol("unsupported version"))
        } else {
            Ok(s)
        },
    }
}

/// Reads a public key.
pub open spec fn take_endpoint(s: Seq<u8>) -> Result<(Seq<u8>, Seq<u8>), Error> {
    match take_fixed(s, 32) {
        Err(e) => Err(e),
        Ok((key, s)) => if is_public_key(key) {
            Ok((key, s))
        } else {
            Err(Error::Protocol("invalid endpoint key"))
        },
    }
}

/// Reads a topic.
pub open spec fn take_topic(s: Seq<u8>) -> Result<(Seq<char>, Seq<u8>), Error> {
    match take_text(s, MAX_TOPIC as nat) {
        Err(e) => Err(e),
        Ok((topic, s)) => if valid_topic(topic) {
            Ok((topic, s))
        } else {
            Err(Error::InvalidTopic)
        },
    }
}

/// Reads a size in bytes, which must fit the machine.
pub open spec fn take_size(s: Seq<u8>) -> Result<(u64, Seq<u8>), Error> {
    match take_u(s) {
        Err(e) => Err(e),
        Ok((n, s)) => if n > usize::MAX {
            Err(Error::MessageTooLarge)
        } else {
            Ok((n, s))
        },
    }
}

/// Reads a delivery mode.
pub open spec fn take_mode(s: Seq<u8>) -> Result<(DeliveryMode, Seq<u8>), Error> {
    match take_u(s) {
        Err(e) => Err(e),
        Ok((n, s)) => match mode_of(n) {
            Err(e) => Err(e),
            Ok(mode) => Ok((mode, s)),
        },
    }
}

pub fn read_version(r: &mut Reader, expected: u64) -> (v: Result<(), Error>)
    requires
        old(r).wf(),
    ensures
        final(r).wf(),
        match take_version(old(r)@, expected) {
            Ok(rest) => v is Ok && final(r)@ == rest,
            Err(e) => v == Err::<(), Error>(e),
        },
{
    let v: u64 = r.u()?;
    if v != expected {
        Err(Error::Protocol("unsupported version"))
    } else {
        Ok(())
    }
}

pub fn read_endpoint(r: &mut Reader) -> (id: Result<EndpointId, Error>)
    requires
        old(r).wf(),
    ensures
        final(r).wf(),
        match take_endpoint(old(r)@) {
            Ok((key, rest)) => id is Ok && id->Ok_0@ == key && id->Ok_0.wf() && final(r)@ == rest,
            Err(e) => id is Err && id->Err_0 == e,
        },
{
    let bytes: [u8; 32] = r.fixed()?;
    EndpointId::from_bytes(&bytes)
}

pub fn read_topic(r: &mut Reader) -> (topic: Result<Topic, Error>)
    requires
        old(r).wf(),
    ensures
        final(r).wf(),
        match take_topic(old(r)@) {
            Ok((name, rest)) => topic is Ok && topic->Ok_0@ == name && final(r)@ == rest,
            Err(e) => topic is Err && topic->Err_0 == e,
        },
{
    let name = r.text(MAX_TOPIC)?;
    Topic::new(name)
}

pub fn read_size(r: &mut Reader) -> (n: Result<usize, Error>)
    requires
        old(r).wf(),
    ensures
        final(r).wf(),
        match take_size(old(r)@) {
            Ok((size, rest)) => n is Ok && n->Ok_0 == size && final(r)@ == rest,
            Err(e) => n is Err && n->Err_0 == e,
        },
{
    let n: u64 = r.u()?;
    if n > usize::MAX as u64 {
        return Err(Error::MessageTooLarge);
    }
    Ok(n as usize)
}

pub fn read_mode(r: &mut Reader) -> (mode: Result<DeliveryMode, Error>)
    requires
        old(r).wf(),
    ensures
        final(r).wf(),
        match take_mode(old(r)@) {
            Ok((m, rest)) => mode is Ok && mode->Ok_0 == m && final(r)@ == rest,
            Err(e) => mode is Err && mode->Err_0 == e,
        },
{
    let n: u64 = r.u()?;
    DeliveryMode::decode(n)
}

pub broadcast proof fn lemma_take_version(v: u64, rest: Seq<u8>)
    ensures
        #[trigger] take_version(uint_item(v) + rest, v) == Ok::<Seq<u8>, Error>(rest),
{
    lemma_take_u(v, rest);
}

pub broadcast proof fn lemma_take_endpoint(key: Seq<u8>, rest: Seq<u8>)
    requires
        key.len() == 32,
        is_public_key(key),
    ensures
        #[trigger] take_endpoint(bytes_item(key) + rest) == Ok::<(Seq<u8>, Seq<u8>), Error>(
            (key, rest),
        ),
{
    lemma_take_fixed(key, 32, rest);
}

pub broadcast proof fn lemma_take_topic(topic: Seq<char>, rest: Seq<u8>)
    requires
        valid_topic(topic),
    ensures
        #[trigger] take_topic(text_item(topic) + rest) == Ok::<(Seq<char>, Seq<u8>), Error>(
            (topic, rest),
        ),
{
    lemma_take_text(topic, MAX_TOPIC as nat, rest);
}

pub broadcast proof fn lemma_take_size(n: u64, rest: Seq<u8>)
    requires
        n <= usize::MAX,
    ensures
        #[trigger] take_size(uint_item(n) + rest) == Ok::<(u64, Seq<u8>), Error>((n, rest)),
{
    lemma_take_u(n, rest);
}

pub broadcast proof fn lemma_take_mode(mode: DeliveryMode, rest: Seq<u8>)
    ensures
        #[trigger] take_mode(uint_item(mode_number(mode)) + rest) == Ok::<
            (DeliveryMode, Seq<u8>),
            Error,
        >((mode, rest)),
{
    lemma_take_u(mode_number(mode), rest);
}

/// Each field that was written is read back, whatever follows it.
pub broadcast group group_fields_back {
    lemma_take_version,
    lemma_take_endpoint,
    lemma_take_topic,
    lemma_take_size,
    lemma_take_mode,
}

// Lists of fields

/// A way to write one element of a list.
pub type Put<T> = spec_fn(T) -> Seq<u8>;

/// A way to read one element of a list: the element and what follows.
pub type Take<T> = spec_fn(Seq<u8>) -> Result<(T, Seq<u8>), Error>;

/// The elements of `xs`, one after the other.
pub open spec fn put_all<T>(xs: Seq<T>, put: Put<T>) -> Seq<u8>
    decreases xs.len(),
{
    if xs.len() == 0 {
        Seq::empty()
    } else {
        put_all(xs.drop_last(), put) + put(xs.last())
    }
}

/// Reads `n` elements, one after the other.
pub open spec fn take_all<T>(s: Seq<u8>, n: nat, take: Take<T>) -> Result<(Seq<T>, Seq<u8>), Error>
    decreases n,
{
    if n == 0 {
        Ok((Seq::empty(), s))
    } else {
        match take_all(s, (n - 1) as nat, take) {
            Err(e) => Err(e),
            Ok((xs, s)) => match take(s) {
                Err(e) => Err(e),
                Ok((x, s)) => Ok((xs.push(x), s)),
            },
        }
    }
}

/// Where reading stops early, reading on changes nothing.
pub proof fn lemma_take_all_error<T>(s: Seq<u8>, m: nat, n: nat, take: Take<T>)
    requires
        m <= n,
        take_all(s, m, take) is Err,
    ensures
        take_all(s, n, take) == take_all(s, m, take),
    decreases n,
{
    if m < n {
        lemma_take_all_error(s, m, (n - 1) as nat, take);
    }
}

pub proof fn lemma_take_all_len<T>(s: Seq<u8>, n: nat, take: Take<T>)
    ensures
        take_all(s, n, take) matches Ok((xs, _)) ==> xs.len() == n,
    decreases n,
{
    if n > 0 {
        lemma_take_all_len(s, (n - 1) as nat, take);
    }
}

/// Elements that are each read back are read back as a list.
pub proof fn lemma_take_all<T>(xs: Seq<T>, rest: Seq<u8>, put: Put<T>, take: Take<T>)
    requires
        forall|i: int, s: Seq<u8>|
            0 <= i < xs.len() ==> #[trigger] take(put(xs[i]) + s) == Ok::<(T, Seq<u8>), Error>(
                (xs[i], s),
            ),
    ensures
        take_all(put_all(xs, put) + rest, xs.len(), take) == Ok::<(Seq<T>, Seq<u8>), Error>(
            (xs, rest),
        ),
    decreases xs.len(),
{
    if xs.len() == 0 {
        assert(put_all(xs, put) + rest =~= rest);
        assert(xs =~= Seq::<T>::empty());
    } else {
        let most = xs.drop_last();
        let last = xs.last();
        assert forall|i: int, s: Seq<u8>| 0 <= i < most.len() implies #[trigger] take(
            put(most[i]) + s,
        ) == Ok::<(T, Seq<u8>), Error>((most[i], s)) by {
            assert(most[i] == xs[i]);
        }
        lemma_concat_assoc(put_all(most, put), put(last), rest);
        lemma_take_all(most, put(last) + rest, put, take);
        assert(take(put(xs[xs.len() - 1]) + rest) == Ok::<(T, Seq<u8>), Error>((last, rest)));
        assert(most.push(last) =~= xs);
    }
}

/// A way to read one element into what was gathered before: the whole and what follows.
pub type Gather<A> = spec_fn(A, Seq<u8>) -> Result<(A, Seq<u8>), Error>;

/// Reads `n` elements into `init`, one after the other.
pub open spec fn take_fold<A>(s: Seq<u8>, n: nat, init: A, gather: Gather<A>) -> Result<
    (A, Seq<u8>),
    Error,
>
    decreases n,
{
    if n == 0 {
        Ok((init, s))
    } else {
        match take_fold(s, (n - 1) as nat, init, gather) {
            Err(e) => Err(e),
            Ok((a, s)) => gather(a, s),
        }
    }
}

/// Where gathering stops early, reading on changes nothing.
pub proof fn lemma_take_fold_error<A>(s: Seq<u8>, m: nat, n: nat, init: A, gather: Gather<A>)
    requires
        m <= n,
        take_fold(s, m, init, gather) is Err,
    ensures
        take_fold(s, n, init, gather) == take_fold(s, m, init, gather),
    decreases n,
{
    if m < n {
        lemma_take_fold_error(s, m, (n - 1) as nat, init, gather);
    }
}

/// Elements that were written in the order of their keys are gathered into the map that they list,
/// if each is taken under a key that is new.
pub proof fn lemma_take_fold_map<K: Key, B>(
    xs: Seq<(K::V, B)>,
    rest: Seq<u8>,
    put: Put<(K::V, B)>,
    gather: Gather<Map<K::V, B>>,
)
    requires
        increasing::<K, B>(xs),
        forall|i: int, m: Map<K::V, B>, s: Seq<u8>|
            0 <= i < xs.len() && !m.contains_key(xs[i].0) ==> #[trigger] gather(m, put(xs[i]) + s)
                == Ok::<(Map<K::V, B>, Seq<u8>), Error>((m.insert(xs[i].0, xs[i].1), s)),
    ensures
        take_fold(put_all(xs, put) + rest, xs.len(), Map::<K::V, B>::empty(), gather) == Ok::<
            (Map<K::V, B>, Seq<u8>),
            Error,
        >((pairs_map(xs), rest)),
    decreases xs.len(),
{
    let none = Map::<K::V, B>::empty();
    if xs.len() == 0 {
        assert(put_all(xs, put) + rest =~= rest);
        assert(pairs_map(xs) =~= none);
    } else {
        let most = xs.drop_last();
        let last = xs.last();
        assert(increasing::<K, B>(most)) by {
            assert forall|i: int, j: int| 0 <= i < j < most.len() implies K::less(
                (#[trigger] most[i]).0,
                (#[trigger] most[j]).0,
            ) by {
                assert(most[i] == xs[i] && most[j] == xs[j]);
            }
        }
        assert forall|i: int, m: Map<K::V, B>, s: Seq<u8>|
            0 <= i < most.len() && !m.contains_key(most[i].0) implies #[trigger] gather(
            m,
            put(most[i]) + s,
        ) == Ok::<(Map<K::V, B>, Seq<u8>), Error>((m.insert(most[i].0, most[i].1), s)) by {
            assert(most[i] == xs[i]);
        }
        lemma_concat_assoc(put_all(most, put), put(last), rest);
        lemma_take_fold_map::<K, B>(most, put(last) + rest, put, gather);
        assert(!pairs_map(most).contains_key(last.0)) by {
            if pairs_map(most).contains_key(last.0) {
                let i = choose|i: int| 0 <= i < most.len() && (#[trigger] most[i]).0 == last.0;
                assert(most[i] == xs[i]);
                assert(K::less(xs[i].0, xs[xs.len() - 1].0));
                K::less_irreflexive(last.0);
            }
        }
        let m = pairs_map(most);
        assert(xs[xs.len() - 1] == last);
        assert(gather(m, put(xs[xs.len() - 1]) + rest) == Ok::<(Map<K::V, B>, Seq<u8>), Error>(
            (m.insert(last.0, last.1), rest),
        ));
        assert(xs =~= most.push(last));
        lemma_pushed::<K, B>(most, xs, last.0, last.1);
    }
}

} // verus!
