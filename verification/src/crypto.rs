//! Keys, signatures, digests and randomness.
//!
//! Keys are held as their bytes; the arithmetic behind them is `iroh`'s.
use crate::error::Error;
use crate::octets::{
    bytes_less, compare_bytes, lemma_bytes_less_irreflexive, lemma_bytes_less_total,
    lemma_bytes_less_transitive, same_bytes, to_array, Relation,
};
use crate::ordered::Key;
use sha2::Digest;
use vstd::prelude::*;

verus! {

/// Sixteen bytes drawn at random, or chosen, to tell one thing from another.
pub type Id = [u8; 16];

// Names for what the outside functions return

/// Whether these bytes are an Ed25519 public key, as `iroh::PublicKey::from_bytes` decides.
pub uninterp spec fn is_public_key(bytes: Seq<u8>) -> bool;

/// The Ed25519 public key of a secret key, as `iroh::SecretKey::public` computes it.
pub uninterp spec fn public_key(secret: Seq<u8>) -> Seq<u8>;

/// The Ed25519 signature of a message, as `iroh::SecretKey::sign` computes it.
pub uninterp spec fn signature(secret: Seq<u8>, message: Seq<u8>) -> Seq<u8>;

/// Whether a signature of a message holds under a public key, as `iroh::PublicKey::verify` decides.
pub uninterp spec fn signature_holds(key: Seq<u8>, message: Seq<u8>, signature: Seq<u8>) -> bool;

/// The SHA-256 digest, as `sha2::Sha256` computes it.
pub uninterp spec fn sha256(bytes: Seq<u8>) -> Seq<u8>;

/// Whether the commitment of a signature, its first half, is another point than the neutral one,
/// whose encoding is a one and thirty-one zeros. Verification refuses the neutral point, though a
/// signer whose nonce hashes to zero would produce it.
pub open spec fn proper_commitment(signature: Seq<u8>) -> bool {
    signature.take(32) != Seq::new(32, |i: int| if i == 0 { 1u8 } else { 0u8 })
}

// The outside functions

/// `iroh::PublicKey::from_bytes`, which takes the bytes of a point on the curve and refuses others.
#[verifier::external_body]
fn check_public_key(bytes: &[u8; 32]) -> (valid: bool)
    ensures
        valid == is_public_key(bytes@),
{
    iroh::PublicKey::from_bytes(bytes).is_ok()
}

/// `iroh::SecretKey::public`: a function of the secret, whose result is always accepted as a
/// public key.
#[verifier::external_body]
fn derive_public_key(secret: &[u8; 32]) -> (public: [u8; 32])
    ensures
        public@ == public_key(secret@),
        is_public_key(public@),
{
    *iroh::SecretKey::from_bytes(secret).public().as_bytes()
}

/// `iroh::SecretKey::sign`: a function of the secret and the message. `iroh::PublicKey::verify`
/// accepts its result under the key of the secret unless the commitment is the neutral point.
#[verifier::external_body]
fn sign_message(secret: &[u8; 32], message: &[u8]) -> (s: [u8; 64])
    ensures
        s@ == signature(secret@, message@),
        proper_commitment(s@) ==> signature_holds(public_key(secret@), message@, s@),
{
    iroh::SecretKey::from_bytes(secret).sign(message).to_bytes()
}

/// `iroh::PublicKey::verify`, on bytes that `iroh::PublicKey::from_bytes` takes; no signature holds
/// under other bytes.
#[verifier::external_body]
fn verify_message(key: &[u8; 32], message: &[u8], s: &[u8; 64]) -> (holds: bool)
    ensures
        holds == signature_holds(key@, message@, s@),
{
    match iroh::PublicKey::from_bytes(key) {
        Ok(key) => key.verify(message, &iroh::Signature::from_bytes(s)).is_ok(),
        Err(_) => false,
    }
}

/// `sha2::Sha256::digest`.
#[verifier::external_body]
fn digest_message(bytes: &[u8]) -> (d: [u8; 32])
    ensures
        d@ == sha256(bytes@),
{
    sha2::Sha256::digest(bytes).into()
}

/// `iroh::SecretKey::generate`, of whose result nothing is known.
#[verifier::external_body]
pub(crate) fn random_secret() -> [u8; 32] {
    iroh::SecretKey::generate().to_bytes()
}

/// `rand::random`, of whose result nothing is known.
#[verifier::external_body]
pub(crate) fn random_bytes() -> [u8; 32] {
    rand::random()
}

/// The identifier at the front of `bytes`.
fn id_of(bytes: &[u8; 32]) -> (id: Id)
    ensures
        id@ == bytes@.take(16),
{
    let id: Id = to_array(&bytes[0..16]);
    assert(id@ =~= bytes@.take(16));
    id
}

/// The number at the front of `bytes`, the high byte first.
fn jitter_of(bytes: &[u8; 32]) -> (n: u16)
    ensures
        n == bytes@[0] * 256 + bytes@[1],
{
    bytes[0] as u16 * 256 + bytes[1] as u16
}

/// An identifier at random.
pub(crate) fn random_id() -> Id {
    id_of(&random_bytes())
}

/// A number at random.
pub(crate) fn random_jitter() -> u16 {
    jitter_of(&random_bytes())
}

// What the library makes of them

/// The SHA-256 digest of `bytes`.
pub fn digest(bytes: &[u8]) -> (d: [u8; 32])
    ensures
        d@ == sha256(bytes@),
{
    digest_message(bytes)
}

/// The public key by which an endpoint is known. Its view is the key's bytes.
#[derive(Debug, Clone, Copy, PartialEq, Eq, Hash, PartialOrd, Ord)]
pub struct EndpointId {
    bytes: [u8; 32],
}

impl View for EndpointId {
    type V = Seq<u8>;

    closed spec fn view(&self) -> Seq<u8> {
        self.bytes@
    }
}

impl EndpointId {
    /// The bytes are a public key.
    #[verifier::type_invariant]
    pub open spec fn wf(&self) -> bool {
        is_public_key(self@) && self@.len() == 32
    }

    pub proof fn lemma_len(&self)
        ensures
            self@.len() == 32,
    {
    }

    /// Takes the bytes of a public key.
    pub fn from_bytes(bytes: &[u8; 32]) -> (r: Result<EndpointId, Error>)
        ensures
            match r {
                Ok(id) => is_public_key(bytes@) && id@ == bytes@ && id.wf(),
                Err(e) => !is_public_key(bytes@) && e == Error::Protocol("invalid endpoint key"),
            },
    {
        if check_public_key(bytes) {
            Ok(EndpointId { bytes: *bytes })
        } else {
            Err(Error::Protocol("invalid endpoint key"))
        }
    }

    pub fn as_bytes(&self) -> (bytes: &[u8; 32])
        ensures
            bytes@ == self@,
    {
        &self.bytes
    }

    /// Whether this is the endpoint `other`.
    pub fn same(&self, other: &EndpointId) -> (r: bool)
        ensures
            r == (self@ == other@),
    {
        same_bytes(&self.bytes, &other.bytes)
    }

    /// Whether `s` is a signature of `message` under this key.
    pub fn verify(&self, message: &[u8], s: &[u8; 64]) -> (holds: bool)
        ensures
            holds == signature_holds(self@, message@, s@),
    {
        verify_message(&self.bytes, message, s)
    }
}

impl Key for EndpointId {
    open spec fn less(a: Seq<u8>, b: Seq<u8>) -> bool {
        bytes_less(a, b)
    }

    proof fn less_irreflexive(a: Seq<u8>) {
        lemma_bytes_less_irreflexive(a);
    }

    proof fn less_transitive(a: Seq<u8>, b: Seq<u8>, c: Seq<u8>) {
        lemma_bytes_less_transitive(a, b, c);
    }

    proof fn less_total(a: Seq<u8>, b: Seq<u8>) {
        lemma_bytes_less_total(a, b);
    }

    fn compare(&self, other: &Self) -> (r: Relation) {
        compare_bytes(&self.bytes, &other.bytes)
    }
}

impl Key for [u8; 16] {
    open spec fn less(a: Seq<u8>, b: Seq<u8>) -> bool {
        bytes_less(a, b)
    }

    proof fn less_irreflexive(a: Seq<u8>) {
        lemma_bytes_less_irreflexive(a);
    }

    proof fn less_transitive(a: Seq<u8>, b: Seq<u8>, c: Seq<u8>) {
        lemma_bytes_less_transitive(a, b, c);
    }

    proof fn less_total(a: Seq<u8>, b: Seq<u8>) {
        lemma_bytes_less_total(a, b);
    }

    fn compare(&self, other: &Self) -> (r: Relation) {
        compare_bytes(self, other)
    }
}

/// A secret signing key. Its view is the key's bytes.
pub struct Secret {
    bytes: [u8; 32],
}

impl View for Secret {
    type V = Seq<u8>;

    closed spec fn view(&self) -> Seq<u8> {
        self.bytes@
    }
}

impl Secret {
    pub fn from_bytes(bytes: &[u8; 32]) -> (s: Secret)
        ensures
            s@ == bytes@,
    {
        Secret { bytes: *bytes }
    }

    pub fn to_bytes(&self) -> (bytes: [u8; 32])
        ensures
            bytes@ == self@,
    {
        self.bytes
    }

    pub fn copy(&self) -> (s: Secret)
        ensures
            s@ == self@,
    {
        Secret { bytes: self.bytes }
    }

    /// The public half of the key.
    pub fn public(&self) -> (id: EndpointId)
        ensures
            id@ == public_key(self@),
            id.wf(),
    {
        EndpointId { bytes: derive_public_key(&self.bytes) }
    }

    /// Signs `message`.
    pub fn sign(&self, message: &[u8]) -> (s: [u8; 64])
        ensures
            s@ == signature(self@, message@),
            proper_commitment(s@) ==> signature_holds(public_key(self@), message@, s@),
    {
        sign_message(&self.bytes, message)
    }
}

} // verus!
