//! What a host and an endpoint that redeems a code say to each other.
use crate::auth::{
    certificate_consistent, certificate_of, new_trust, trust_verify, Certificate, CertificateView,
    Trust, TrustView, MAX_CERT,
};
use crate::cbor::{
    array_head, bytes_item, canonical, canonical_check, lemma_take_array, lemma_take_fixed,
    lemma_take_last_bytes, lemma_take_last_fixed, lemma_take_last_u, lemma_take_u, take_array,
    take_bytes, take_end, take_fixed, take_u, uint_item, Reader, Writer,
};
use crate::crypto::{is_public_key, EndpointId, Id};
use crate::error::Error;
use crate::join::JoinCode;
use crate::octets::same_bytes;
use crate::record::{lemma_take_endpoint, read_endpoint, take_endpoint};
use crate::wire::{Header, HELLO, READY};
use vstd::prelude::*;

verus! {

/// The version of the protocol by which codes are redeemed.
pub const JOIN_VERSION: u64 = 2;

/// The frame that refuses a request.
pub const REFUSAL: u8 = 11;

/// The longest request, in bytes.
pub const MAX_REQUEST: usize = 128;

/// Reads the version of the protocol.
pub open spec fn take_join_version(s: Seq<u8>) -> Result<Seq<u8>, Error> {
    match take_u(s) {
        Err(e) => Err(e),
        Ok((v, s)) => if v != JOIN_VERSION {
            Err(Error::Protocol("join protocol version"))
        } else {
            Ok(s)
        },
    }
}

fn join_version(r: &mut Reader) -> (v: Result<(), Error>)
    requires
        old(r).wf(),
    ensures
        final(r).wf(),
        match take_join_version(old(r)@) {
            Ok(rest) => v is Ok && final(r)@ == rest,
            Err(e) => v == Err::<(), Error>(e),
        },
{
    let v: u64 = r.u()?;
    if v != JOIN_VERSION {
        return Err(Error::Protocol("join protocol version"));
    }
    Ok(())
}

// The request

/// A request for admission: the identifier of a code, and its secret.
pub open spec fn request_bytes(id: Seq<u8>, secret: Seq<u8>) -> Seq<u8> {
    array_head(3) + (uint_item(JOIN_VERSION) + (bytes_item(id) + bytes_item(secret)))
}

/// The identifier and the secret that a request holds.
pub open spec fn request_of(b: Seq<u8>) -> Result<(Seq<u8>, Seq<u8>), Error> {
    match take_array(b, 3) { Err(e) => Err(e), Ok(s) =>
    match take_join_version(s) { Err(e) => Err(e), Ok(s) =>
    match take_fixed(s, 16) { Err(e) => Err(e), Ok((id, s)) =>
    match take_fixed(s, 32) { Err(e) => Err(e), Ok((secret, s)) =>
    match take_end(s) { Err(e) => Err(e), Ok(()) =>
    match canonical_check(b, request_bytes(id, secret)) {
        Err(e) => Err(e),
        Ok(()) => Ok((id, secret)),
    } } } } } }
}

/// Whether a code's secret may be shown to the endpoint at the other end: only to its host.
pub fn may_redeem(code: &JoinCode, remote: EndpointId) -> (r: Result<(), Error>)
    ensures
        r == (if remote@ == code@.address.id {
            Ok::<(), Error>(())
        } else {
            Err::<(), Error>(Error::Unauthorized)
        }),
{
    if !remote.same(&code.host_id()) {
        return Err(Error::Unauthorized);
    }
    Ok(())
}

/// Whether a frame can be a request for admission.
pub fn accepts_request(header: &Header) -> (r: Result<(), Error>)
    ensures
        r == (if header.kind == HELLO && header.metadata <= MAX_REQUEST {
            Ok::<(), Error>(())
        } else {
            Err::<(), Error>(Error::Protocol("join request"))
        }),
{
    if header.kind != HELLO || header.metadata > MAX_REQUEST {
        return Err(Error::Protocol("join request"));
    }
    Ok(())
}

/// A request for admission.
pub fn request(id: Id, secret: [u8; 32]) -> (b: Vec<u8>)
    ensures
        b@ == request_bytes(id@, secret@),
{
    let mut w = Writer::new();
    w.array(3);
    w.u(JOIN_VERSION);
    w.bytes(&id);
    w.bytes(&secret);
    w.finish()
}

/// Reads a request for admission.
pub fn parse_request(b: &[u8]) -> (r: Result<(Id, [u8; 32]), Error>)
    ensures
        match request_of(b@) {
            Ok((id, secret)) => r is Ok && r->Ok_0.0@ == id && r->Ok_0.1@ == secret,
            Err(e) => r is Err && r->Err_0 == e,
        },
{
    let mut r = Reader::new(b);
    r.array(3)?;
    join_version(&mut r)?;
    let id: Id = r.fixed()?;
    let secret: [u8; 32] = r.fixed()?;
    r.end()?;
    canonical(b, request(id, secret).as_slice())?;
    Ok((id, secret))
}

/// A host reads the request that was written.
pub proof fn law_request_round_trip(id: Seq<u8>, secret: Seq<u8>)
    requires
        id.len() == 16,
        secret.len() == 32,
    ensures
        request_of(request_bytes(id, secret)) == Ok::<(Seq<u8>, Seq<u8>), Error>((id, secret)),
{
    let last = bytes_item(secret);
    lemma_take_array(3, 3, uint_item(JOIN_VERSION) + (bytes_item(id) + last));
    lemma_take_u(JOIN_VERSION, bytes_item(id) + last);
    lemma_take_fixed(id, 16, last);
    lemma_take_last_fixed(secret, 32);
}

// The reply

/// What a host hands to an endpoint that it admits, as a value.
#[verifier::ext_equal]
pub struct EnrollmentView {
    pub trust: TrustView,
    pub expires: u64,
    pub certificate: CertificateView,
}

/// Metadata supplied only over the connection authenticated by the code's host key.
pub struct Enrollment {
    pub trust: Trust,
    pub expires: u64,
    pub certificate: Certificate,
}

impl View for Enrollment {
    type V = EnrollmentView;

    open spec fn view(&self) -> EnrollmentView {
        EnrollmentView {
            trust: self.trust@,
            expires: self.expires,
            certificate: self.certificate@,
        }
    }
}

pub open spec fn enrollment_bytes(e: EnrollmentView) -> Seq<u8> {
    array_head(5) + (uint_item(JOIN_VERSION) + (bytes_item(e.trust.realm) + (bytes_item(
        e.trust.root,
    ) + (uint_item(e.expires) + bytes_item(e.certificate.bytes)))))
}

/// The enrollment that `b` holds for `peer`. Rejoining must preserve the established authority and
/// realm, including when a restarted host reuses its transport identity, so existing trust is
/// never replaced.
pub open spec fn enrollment_of(
    b: Seq<u8>,
    peer: Seq<u8>,
    expected: Option<TrustView>,
    now: u64,
) -> Result<EnrollmentView, Error> {
    match take_array(b, 5) { Err(e) => Err(e), Ok(s) =>
    match take_join_version(s) { Err(e) => Err(e), Ok(s) =>
    match take_fixed(s, 16) { Err(e) => Err(e), Ok((realm, s)) =>
    match take_endpoint(s) { Err(e) => Err(e), Ok((root, s)) =>
    match take_u(s) { Err(e) => Err(e), Ok((expires, s)) =>
    match take_bytes(s, MAX_CERT as nat) { Err(e) => Err(e), Ok((bytes, s)) =>
    match certificate_of(bytes) { Err(e) => Err(e), Ok(claims) =>
    match take_end(s) { Err(e) => Err(e), Ok(()) => {
        let trust = new_trust(realm, root);
        let certificate = CertificateView { claims, bytes };
        let enrollment = EnrollmentView { trust, expires, certificate };
        let judge = match expected {
            Some(t) => t,
            None => trust,
        };
        match canonical_check(b, enrollment_bytes(enrollment)) { Err(e) => Err(e), Ok(()) =>
        if judge.root != root || judge.realm != realm {
            Err(Error::Unauthorized)
        } else if expires <= now {
            Err(Error::CertificateExpired)
        } else {
            match trust_verify(judge, certificate, peer, now) {
                Err(e) => Err(e),
                Ok(()) => Ok(enrollment),
            }
        } }
    } } } } } } } } }
}

impl Enrollment {
    pub fn encode(&self) -> (b: Vec<u8>)
        ensures
            b@ == enrollment_bytes(self@),
    {
        let mut w = Writer::new();
        w.array(5);
        w.u(JOIN_VERSION);
        w.bytes(&self.trust.realm_id());
        w.bytes(self.trust.root().as_bytes());
        w.u(self.expires);
        w.bytes(self.certificate.as_bytes());
        w.finish()
    }

    pub fn decode(bytes: &[u8], peer: EndpointId, expected: Option<&Trust>, now: u64) -> (r: Result<
        Enrollment,
        Error,
    >)
        ensures
            match enrollment_of(
                bytes@,
                peer@,
                match expected {
                    Some(t) => Some(t@),
                    None => None,
                },
                now,
            ) {
                Ok(e) => r is Ok && r->Ok_0@ == e,
                Err(e) => r is Err && r->Err_0 == e,
            },
    {
        let mut r = Reader::new(bytes);
        r.array(5)?;
        join_version(&mut r)?;
        let realm: Id = r.fixed()?;
        let root = read_endpoint(&mut r)?;
        let expires: u64 = r.u()?;
        let certificate = Certificate::from_bytes(r.bytes(MAX_CERT)?)?;
        r.end()?;
        let value = Enrollment { trust: Trust::new(realm, root), expires, certificate };
        canonical(bytes, value.encode().as_slice())?;
        let judge = match expected {
            Some(trust) => trust,
            None => &value.trust,
        };
        if !judge.root().same(&root) || !same_bytes(&judge.realm_id(), &realm) {
            return Err(Error::Unauthorized);
        }
        if expires <= now {
            return Err(Error::CertificateExpired);
        }
        judge.verify(&value.certificate, peer, now)?;
        Ok(value)
    }
}

/// An endpoint reads the enrollment that its host wrote, if it accepts the certificate and the
/// code has not run out.
pub proof fn law_enrollment_round_trip(
    e: EnrollmentView,
    peer: Seq<u8>,
    expected: Option<TrustView>,
    now: u64,
)
    requires
        e.trust == new_trust(e.trust.realm, e.trust.root),
        e.trust.realm.len() == 16,
        e.trust.root.len() == 32,
        is_public_key(e.trust.root),
        certificate_consistent(e.certificate),
        now < e.expires,
        expected matches Some(t) ==> t.realm == e.trust.realm && t.root == e.trust.root,
        trust_verify(
            match expected {
                Some(t) => t,
                None => e.trust,
            },
            e.certificate,
            peer,
            now,
        ) is Ok,
    ensures
        enrollment_of(enrollment_bytes(e), peer, expected, now) == Ok::<EnrollmentView, Error>(e),
{
    let last = bytes_item(e.certificate.bytes);
    let s3 = uint_item(e.expires) + last;
    let s2 = bytes_item(e.trust.root) + s3;
    let s1 = bytes_item(e.trust.realm) + s2;
    lemma_take_array(5, 5, uint_item(JOIN_VERSION) + s1);
    lemma_take_u(JOIN_VERSION, s1);
    lemma_take_fixed(e.trust.realm, 16, s2);
    lemma_take_endpoint(e.trust.root, s3);
    lemma_take_u(e.expires, last);
    lemma_take_last_bytes(e.certificate.bytes, MAX_CERT as nat);
}

/// An enrollment is never taken that an endpoint's established trust does not cover: not one of
/// another authority or realm, and not one under a certificate that was revoked.
pub proof fn law_enrollment_keeps_trust(b: Seq<u8>, peer: Seq<u8>, expected: TrustView, now: u64)
    ensures
        enrollment_of(b, peer, Some(expected), now) matches Ok(e) ==> {
            &&& e.trust.realm == expected.realm
            &&& e.trust.root == expected.root
            &&& !expected.revoked.contains(e.certificate.claims.id)
            &&& now < e.expires
        },
{
}

/// A refusal and its reason.
pub open spec fn refusal_bytes(reason: u64) -> Seq<u8> {
    array_head(2) + (uint_item(JOIN_VERSION) + uint_item(reason))
}

/// The reason that a host gives for an error.
pub open spec fn refusal_reason(e: Error) -> u64 {
    if e is QueueFull {
        2
    } else {
        1
    }
}

/// The error that a refusal stands for.
pub open spec fn refusal_error(b: Seq<u8>) -> Error {
    match take_array(b, 2) { Err(e) => e, Ok(s) =>
    match take_join_version(s) { Err(e) => e, Ok(s) =>
    match take_u(s) { Err(e) => e, Ok((reason, s)) =>
    match take_end(s) { Err(e) => e, Ok(()) =>
    match canonical_check(b, refusal_bytes(reason)) {
        Err(e) => e,
        Ok(()) => if reason == 1 {
            Error::Unauthorized
        } else if reason == 2 {
            Error::QueueFull
        } else {
            Error::Protocol("join rejection reason")
        },
    } } } } }
}

/// The reply to a request for admission: the kind of its frame, and its bytes.
pub open spec fn reply_to(outcome: Result<EnrollmentView, Error>) -> (u8, Seq<u8>) {
    match outcome {
        Ok(e) => (READY, enrollment_bytes(e)),
        Err(e) => (REFUSAL, refusal_bytes(refusal_reason(e))),
    }
}

/// What a reply says.
pub open spec fn reply_of(
    kind: u8,
    b: Seq<u8>,
    peer: Seq<u8>,
    expected: Option<TrustView>,
    now: u64,
) -> Result<EnrollmentView, Error> {
    if kind == REFUSAL {
        Err(refusal_error(b))
    } else if kind != READY {
        Err(Error::Protocol("join response"))
    } else {
        enrollment_of(b, peer, expected, now)
    }
}

fn refusal(reason: u64) -> (b: Vec<u8>)
    ensures
        b@ == refusal_bytes(reason),
{
    let mut w = Writer::new();
    w.array(2);
    w.u(JOIN_VERSION);
    w.u(reason);
    w.finish()
}

/// The reply to a request for admission.
pub fn reply(outcome: &Result<Enrollment, Error>) -> (r: (u8, Vec<u8>))
    ensures
        (r.0, r.1@) == reply_to(
            match *outcome {
                Ok(e) => Ok(e@),
                Err(e) => Err(e),
            },
        ),
{
    match outcome {
        Ok(enrollment) => (READY, enrollment.encode()),
        Err(Error::QueueFull) => (REFUSAL, refusal(2)),
        Err(_) => (REFUSAL, refusal(1)),
    }
}

fn parse_refusal(b: &[u8]) -> (r: Result<u64, Error>)
    ensures
        match r {
            Ok(reason) => refusal_error(b@) == if reason == 1 {
                Error::Unauthorized
            } else if reason == 2 {
                Error::QueueFull
            } else {
                Error::Protocol("join rejection reason")
            },
            Err(e) => refusal_error(b@) == e,
        },
{
    let mut r = Reader::new(b);
    r.array(2)?;
    join_version(&mut r)?;
    let reason: u64 = r.u()?;
    r.end()?;
    canonical(b, refusal(reason).as_slice())?;
    Ok(reason)
}

/// Reads a host's reply.
pub fn parse_reply(
    kind: u8,
    b: &[u8],
    peer: EndpointId,
    expected: Option<&Trust>,
    now: u64,
) -> (r: Result<Enrollment, Error>)
    ensures
        match reply_of(
            kind,
            b@,
            peer@,
            match expected {
                Some(t) => Some(t@),
                None => None,
            },
            now,
        ) {
            Ok(e) => r is Ok && r->Ok_0@ == e,
            Err(e) => r is Err && r->Err_0 == e,
        },
{
    if kind == REFUSAL {
        return Err(
            match parse_refusal(b) {
                Ok(1) => Error::Unauthorized,
                Ok(2) => Error::QueueFull,
                Ok(_) => Error::Protocol("join rejection reason"),
                Err(e) => e,
            },
        );
    }
    if kind != READY {
        return Err(Error::Protocol("join response"));
    }
    Enrollment::decode(b, peer, expected, now)
}

/// An endpoint that is refused learns whether there was no room; of every other reason it learns
/// only that it is not admitted.
pub proof fn law_refusal_round_trip(
    error: Error,
    peer: Seq<u8>,
    expected: Option<TrustView>,
    now: u64,
)
    ensures
        ({
            let (kind, b) = reply_to(Err(error));
            reply_of(kind, b, peer, expected, now) == Err::<EnrollmentView, Error>(
                if error is QueueFull {
                    Error::QueueFull
                } else {
                    Error::Unauthorized
                },
            )
        }),
{
    let reason = refusal_reason(error);
    lemma_take_array(2, 2, uint_item(JOIN_VERSION) + uint_item(reason));
    lemma_take_u(JOIN_VERSION, uint_item(reason));
    lemma_take_last_u(reason);
}

/// A request and an enrollment that are read are the one way to write what they say.
pub proof fn law_bootstrap_canonical(
    b: Seq<u8>,
    peer: Seq<u8>,
    expected: Option<TrustView>,
    now: u64,
)
    ensures
        request_of(b) matches Ok((id, secret)) ==> request_bytes(id, secret) == b,
        enrollment_of(b, peer, expected, now) matches Ok(e) ==> enrollment_bytes(e) == b,
{
}

} // verus!
