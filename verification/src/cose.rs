//! Signed containers: a payload with an Ed25519 signature over it and the purpose it is signed for.
//!
//! A container is a COSE single-signer message of a fixed profile, in canonical CBOR.
use crate::cbor::{
    array_head, bytes_item, canonical, canonical_check, empty_map_item, group_read_back,
    lemma_take_sizes, take_array, take_bytes, take_empty_map, take_end, take_fixed, text_item,
    Reader, Writer,
};
use crate::crypto::{
    proper_commitment, public_key, signature, signature_holds, EndpointId, Secret,
};
use crate::error::Error;
use crate::octets::same_bytes;
use vstd::prelude::*;

verus! {

/// The protected header: the map `{1: -8}`, which names the signature algorithm.
pub open spec fn protected_header() -> Seq<u8> {
    seq![0xa1u8, 0x01u8, 0x27u8]
}

/// What the signature of a container is over.
pub open spec fn signed_bytes(payload: Seq<u8>, context: Seq<u8>) -> Seq<u8> {
    array_head(4) + (text_item("Signature1"@) + (bytes_item(protected_header()) + (bytes_item(
        context,
    ) + bytes_item(payload))))
}

/// The container of a payload and its signature.
pub open spec fn container(payload: Seq<u8>, signature: Seq<u8>) -> Seq<u8> {
    array_head(4) + (bytes_item(protected_header()) + (empty_map_item() + (bytes_item(payload)
        + bytes_item(signature))))
}

/// The payload and the signature of a container of at most `max` bytes.
pub open spec fn container_parts(b: Seq<u8>, max: nat) -> Result<(Seq<u8>, Seq<u8>), Error> {
    if b.len() > max {
        Err(Error::MessageTooLarge)
    } else {
        match take_array(b, 4) {
            Err(e) => Err(e),
            Ok(s) => match take_bytes(s, 3) {
                Err(e) => Err(e),
                Ok((header, s)) => if header != protected_header() {
                    Err(Error::Protocol("unsupported COSE protected headers"))
                } else {
                    match take_empty_map(s) {
                        Err(e) => Err(e),
                        Ok(s) => match take_bytes(s, max) {
                            Err(e) => Err(e),
                            Ok((payload, s)) => match take_fixed(s, 64) {
                                Err(e) => Err(e),
                                Ok((signature, s)) => match take_end(s) {
                                    Err(e) => Err(e),
                                    Ok(()) => match canonical_check(
                                        b,
                                        container(payload, signature),
                                    ) {
                                        Err(e) => Err(e),
                                        Ok(()) => Ok((payload, signature)),
                                    },
                                },
                            },
                        },
                    }
                },
            },
        }
    }
}

/// The payload of a container of at most `max` bytes that `key` signed for `context`.
pub open spec fn verified_payload(
    b: Seq<u8>,
    key: Seq<u8>,
    context: Seq<u8>,
    max: nat,
) -> Result<Seq<u8>, Error> {
    match container_parts(b, max) {
        Err(e) => Err(e),
        Ok((payload, signature)) => if signature_holds(
            key,
            signed_bytes(payload, context),
            signature,
        ) {
            Ok(payload)
        } else {
            Err(Error::InvalidSignature)
        },
    }
}

/// What was put in a container that fits comes out of it.
pub proof fn lemma_container_parts(payload: Seq<u8>, signature: Seq<u8>, max: nat)
    requires
        signature.len() == 64,
        container(payload, signature).len() <= max,
        max <= u64::MAX,
    ensures
        container_parts(container(payload, signature), max) == Ok::<(Seq<u8>, Seq<u8>), Error>(
            (payload, signature),
        ),
{
    broadcast use group_read_back;

    let s = empty_map_item() + (bytes_item(payload) + bytes_item(signature));
    let whole = container(payload, signature);
    assert(take_array(whole, 4) == Ok::<Seq<u8>, Error>(bytes_item(protected_header()) + s));
    assert(payload.len() <= whole.len()) by {
        reveal(bytes_item);
    }
}

/// A container that is accepted is the one way to write its payload and its signature.
pub proof fn lemma_container_canonical(b: Seq<u8>, max: nat)
    ensures
        match container_parts(b, max) {
            Ok((payload, signature)) => b == container(payload, signature) && signature.len() == 64
                && payload.len() < b.len() <= max,
            Err(_) => true,
        },
{
    if let Ok(s1) = take_array(b, 4) {
        lemma_take_sizes(b, 4);
        lemma_take_sizes(s1, 3);
        if let Ok((header, s2)) = take_bytes(s1, 3) {
            lemma_take_sizes(s2, 0);
            if let Ok(s3) = take_empty_map(s2) {
                lemma_take_sizes(s3, max);
                if let Ok((payload, s4)) = take_bytes(s3, max) {
                    lemma_take_sizes(s4, 64);
                }
            }
        }
    }
}

/// No part of a container that stops short of its end is a container.
pub proof fn lemma_container_prefix(b: Seq<u8>, n: int, max: nat)
    requires
        container_parts(b, max) is Ok,
        0 <= n < b.len(),
        max <= u64::MAX,
    ensures
        container_parts(b.take(n), max) is Err,
{
    broadcast use group_read_back;

    lemma_container_canonical(b.take(n), max);
    if let Ok((payload, signature)) = container_parts(b.take(n), max) {
        let t = b.skip(n);
        let s4 = bytes_item(signature) + t;
        let s3 = bytes_item(payload) + s4;
        let s2 = empty_map_item() + s3;
        let s1 = bytes_item(protected_header()) + s2;
        assert(b =~= container(payload, signature) + t);
        assert(b =~= array_head(4) + s1);
        assert(take_array(b, 4) == Ok::<Seq<u8>, Error>(s1));
        assert(take_bytes(s1, 3) == Ok::<(Seq<u8>, Seq<u8>), Error>((protected_header(), s2)));
        assert(take_empty_map(s2) == Ok::<Seq<u8>, Error>(s3));
        assert(take_bytes(s3, max) == Ok::<(Seq<u8>, Seq<u8>), Error>((payload, s4)));
        assert(take_fixed(s4, 64) == Ok::<(Seq<u8>, Seq<u8>), Error>((signature, t)));
        assert(take_end(t) is Err);
    }
}

fn protected() -> (b: [u8; 3])
    ensures
        b@ == protected_header(),
{
    let b: [u8; 3] = [0xa1, 0x01, 0x27];
    assert(b@ =~= protected_header());
    b
}

fn signing_bytes(payload: &[u8], context: &[u8]) -> (b: Vec<u8>)
    ensures
        b@ == signed_bytes(payload@, context@),
{
    let mut w = Writer::new();
    w.array(4);
    w.text("Signature1");
    w.bytes(&protected());
    w.bytes(context);
    w.bytes(payload);
    w.finish()
}

fn cose(payload: &[u8], signature: &[u8]) -> (b: Vec<u8>)
    ensures
        b@ == container(payload@, signature@),
{
    let mut w = Writer::new();
    w.array(4);
    w.bytes(&protected());
    w.empty_map();
    w.bytes(payload);
    w.bytes(signature);
    w.finish()
}

/// Signs `payload` for the purpose `context`. Whoever reads the container under the public half of
/// the key and for the same purpose gets the payload back.
pub fn sign_cose(payload: &[u8], key: &Secret, context: &[u8]) -> (b: Vec<u8>)
    ensures
        b@ == container(payload@, signature(key@, signed_bytes(payload@, context@))),
        signature(key@, signed_bytes(payload@, context@)).len() == 64,
        forall|max: nat|
            b@.len() <= max <= u64::MAX && proper_commitment(
                signature(key@, signed_bytes(payload@, context@)),
            ) ==> #[trigger] verified_payload(b@, public_key(key@), context@, max) == Ok::<
                Seq<u8>,
                Error,
            >(payload@),
{
    let s = key.sign(signing_bytes(payload, context).as_slice());
    let b = cose(payload, &s);
    proof {
        assert forall|max: nat|
            b@.len() <= max <= u64::MAX && proper_commitment(s@) implies #[trigger] verified_payload(
            b@,
            public_key(key@),
            context@,
            max,
        ) == Ok::<Seq<u8>, Error>(payload@) by {
            lemma_container_parts(payload@, s@, max);
        }
    }
    b
}

/// Takes a container apart without judging its signature.
pub fn parse_cose(bytes: &[u8], max: usize) -> (r: Result<(&[u8], [u8; 64]), Error>)
    ensures
        match container_parts(bytes@, max as nat) {
            Ok((payload, signature)) => r is Ok && r->Ok_0.0@ == payload && r->Ok_0.1@ == signature,
            Err(e) => r is Err && r->Err_0 == e,
        },
{
    if bytes.len() > max {
        return Err(Error::MessageTooLarge);
    }
    let mut r = Reader::new(bytes);
    r.array(4)?;
    let header = r.bytes(3)?;
    if !same_bytes(header, &protected()) {
        return Err(Error::Protocol("unsupported COSE protected headers"));
    }
    r.empty_map()?;
    let payload = r.bytes(max)?;
    let signature = r.fixed()?;
    r.end()?;
    canonical(bytes, cose(payload, &signature).as_slice())?;
    Ok((payload, signature))
}

/// The payload of a container that `key` signed for the purpose `context`.
pub fn verify_cose<'a>(bytes: &'a [u8], key: &EndpointId, context: &[u8], max: usize) -> (r: Result<
    &'a [u8],
    Error,
>)
    ensures
        match verified_payload(bytes@, key@, context@, max as nat) {
            Ok(payload) => r is Ok && r->Ok_0@ == payload,
            Err(e) => r is Err && r->Err_0 == e,
        },
{
    let (payload, signature) = parse_cose(bytes, max)?;
    if !key.verify(signing_bytes(payload, context).as_slice(), &signature) {
        return Err(Error::InvalidSignature);
    }
    Ok(payload)
}

} // verus!
