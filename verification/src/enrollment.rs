//! Single-use invitations: an authority gives them out, and each brings one endpoint a certificate.
use crate::admission::{permissions_charge, Meter};
use crate::armor::{
    armor, lemma_spelled_ascii, lemma_spelled_len, lemma_unspelled, spelled, unarmor, unspelled,
};
use crate::auth::{
    certificate_of, certificate_outcome, issued, permission_views, trust_verify, Authority,
    AuthorityView, Certificate, CertificateLimits, CertificateView, Permission, PermissionView,
    Trust, TrustView, MAX_CERT, MAX_PERMISSIONS,
};
use crate::bootstrap::REFUSAL;
use crate::cbor::{
    array_head, bytes_item, canonical, canonical_check, lemma_head_len, lemma_take_array,
    lemma_take_fixed, lemma_take_last_fixed, lemma_take_text, lemma_take_u, take_array, take_bytes,
    take_end, take_fixed, take_text, take_u, text_item, uint_item, Reader, Writer,
};
use crate::crypto::{digest, public_key, random_bytes, random_id, sha256, EndpointId, Id};
use crate::endpoint::{Config, ConfigView};
use crate::error::Error;
use crate::identity::Identity;
use crate::invite::{
    invite_formed, invite_of, invite_text, law_invite_round_trip, lemma_invite_len, InviteView,
    PeerInvite, MAX_INVITE,
};
use crate::join::copy_permissions;
use crate::ledger::{since, AskedView, Ledger};
use crate::message::lemma_utf8_injective;
use crate::octets::same_bytes;
use crate::ordered::{kept, OrderedMap};
use crate::record::{lemma_take_version, read_version, take_version};
use crate::time::Duration;
use crate::wire::{Header, HELLO, READY};
use vstd::prelude::*;
use vstd::utf8::encode_utf8;

verus! {

/// The longest invitation, in bytes.
pub const MAX_ENROLLMENT: usize = 32768;

/// The longest life of an invitation and of the certificate that it brings, in seconds.
pub const MAX_INVITE_SECS: u64 = 86400;

/// The longest request to redeem an invitation, in bytes.
pub const MAX_REDEEM: usize = 128;

// Invitations as text

/// An invitation, as a value.
#[verifier::ext_equal]
pub struct EnrollmentInviteView {
    pub contact: InviteView,
    pub expires_at: u64,
    pub id: Seq<u8>,
    pub secret: Seq<u8>,
}

/// An invitation: where the authority can be reached, and the secret that it asks for.
pub struct EnrollmentInvite {
    pub contact: PeerInvite,
    pub expires_at: u64,
    id: Id,
    secret: [u8; 32],
}

impl View for EnrollmentInvite {
    type V = EnrollmentInviteView;

    closed spec fn view(&self) -> EnrollmentInviteView {
        EnrollmentInviteView {
            contact: self.contact@,
            expires_at: self.expires_at,
            id: self.id@,
            secret: self.secret@,
        }
    }
}

impl Clone for EnrollmentInvite {
    fn clone(&self) -> (i: Self)
        ensures
            i@ == self@,
    {
        EnrollmentInvite {
            contact: self.contact.clone(),
            expires_at: self.expires_at,
            id: self.id,
            secret: self.secret,
        }
    }
}

/// What the text of an invitation spells, where `contact` is the text of its contact.
pub open spec fn enrollment_payload(i: EnrollmentInviteView, contact: Seq<char>) -> Seq<u8> {
    array_head(5) + (uint_item(1) + (text_item(contact) + (uint_item(i.expires_at) + (bytes_item(
        i.id,
    ) + bytes_item(i.secret)))))
}

/// The text of an invitation.
pub open spec fn enrollment_text(i: EnrollmentInviteView) -> Result<Seq<char>, Error> {
    match invite_text(i.contact) {
        Err(e) => Err(e),
        Ok(contact) => Ok(spelled(enrollment_payload(i, contact))),
    }
}

/// The invitation that a text spells, in whatever way.
pub open spec fn enrollment_of_payload(b: Seq<u8>) -> Result<EnrollmentInviteView, Error> {
    match take_array(b, 5) { Err(e) => Err(e), Ok(s) =>
    match take_version(s, 1) { Err(e) => Err(e), Ok(s) =>
    match take_text(s, MAX_INVITE as nat) { Err(e) => Err(e), Ok((text, s)) =>
    match invite_of(text) { Err(e) => Err(e), Ok(contact) =>
    match take_u(s) { Err(e) => Err(e), Ok((expires_at, s)) =>
    match take_fixed(s, 16) { Err(e) => Err(e), Ok((id, s)) =>
    match take_fixed(s, 32) { Err(e) => Err(e), Ok((secret, s)) =>
    match take_end(s) {
        Err(e) => Err(e),
        Ok(()) => Ok(EnrollmentInviteView { contact, expires_at, id, secret }),
    } } } } } } } }
}

/// The invitation that a text stands for.
pub open spec fn enrollment_invite_of(text: Seq<char>) -> Result<EnrollmentInviteView, Error> {
    let b = encode_utf8(text);
    if b.len() > MAX_ENROLLMENT {
        Err(Error::MessageTooLarge)
    } else {
        match unspelled(b) {
            None => Err(Error::Protocol("enrollment invitation")),
            Some(payload) =>
            match enrollment_of_payload(payload) { Err(e) => Err(e), Ok(i) =>
            match enrollment_text(i) { Err(e) => Err(e), Ok(again) =>
            if again != text {
                Err(Error::Protocol("noncanonical enrollment invite"))
            } else {
                Ok(i)
            } } },
        }
    }
}

// Redeeming

/// Whether an endpoint may redeem an invitation, or why not: the invitation cannot replace the
/// authority that the endpoint trusts.
pub open spec fn redeem_review(i: EnrollmentInviteView, t: TrustView, clock: Option<u64>) -> Result<
    (),
    Error,
> {
    if t.realm != i.contact.realm_id || t.root != i.contact.authority {
        Err(Error::Unauthorized)
    } else {
        match clock {
            None => Err(Error::Clock),
            Some(now) => if now >= i.expires_at {
                Err(Error::CertificateExpired)
            } else {
                Ok(())
            },
        }
    }
}

/// A request to redeem an invitation, in bytes.
pub open spec fn redeem_bytes(id: Seq<u8>, secret: Seq<u8>) -> Seq<u8> {
    array_head(3) + (uint_item(1) + (bytes_item(id) + bytes_item(secret)))
}

/// The request to redeem an invitation that `b` holds.
pub open spec fn redeem_of(b: Seq<u8>) -> Result<(Seq<u8>, Seq<u8>), Error> {
    match take_array(b, 3) { Err(e) => Err(e), Ok(s) =>
    match take_version(s, 1) { Err(e) => Err(e), Ok(s) =>
    match take_fixed(s, 16) { Err(e) => Err(e), Ok((id, s)) =>
    match take_fixed(s, 32) { Err(e) => Err(e), Ok((secret, s)) =>
    match take_end(s) { Err(e) => Err(e), Ok(()) =>
    match canonical_check(b, redeem_bytes(id, secret)) {
        Err(e) => Err(e),
        Ok(()) => Ok((id, secret)),
    } } } } } }
}

/// The answer to a request: a certificate, or a refusal that says nothing more.
pub open spec fn redeem_reply(r: Result<CertificateView, Error>) -> (u8, Seq<u8>) {
    match r {
        Ok(c) => (READY, array_head(2) + (uint_item(1) + bytes_item(c.bytes))),
        Err(_) => (REFUSAL, array_head(2) + (uint_item(1) + uint_item(1))),
    }
}

/// The certificate that an answer brings.
pub open spec fn redeemed_certificate(
    kind: u8,
    b: Seq<u8>,
    t: TrustView,
    own: Seq<u8>,
    clock: Option<u64>,
) -> Result<CertificateView, Error> {
    if kind != READY {
        Err(Error::Unauthorized)
    } else {
        match take_array(b, 2) { Err(e) => Err(e), Ok(s) =>
        match take_version(s, 1) { Err(e) => Err(e), Ok(s) =>
        match take_bytes(s, MAX_CERT as nat) { Err(e) => Err(e), Ok((bytes, s)) =>
        match certificate_of(bytes) { Err(e) => Err(e), Ok(claims) =>
        match take_end(s) { Err(e) => Err(e), Ok(()) => {
            let c = CertificateView { claims, bytes };
            match clock { None => Err(Error::Clock), Some(now) =>
            match trust_verify(t, c, own, now) {
                Err(e) => Err(e),
                Ok(_) => Ok(c),
            } }
        } } } } } }
    }
}

impl EnrollmentInvite {
    /// Contains a bearer secret. Deliver through a trusted channel and never log this encoding.
    pub fn encode(&self) -> (r: Result<String, Error>)
        ensures
            match enrollment_text(self@) {
                Ok(text) => r is Ok && r->Ok_0@ == text,
                Err(e) => r is Err && r->Err_0 == e,
            },
    {
        let contact = self.contact.encode()?;
        let mut w = Writer::new();
        w.array(5);
        w.u(1);
        w.text(contact.as_str());
        w.u(self.expires_at);
        w.bytes(&self.id);
        w.bytes(&self.secret);
        let payload = w.finish();
        Ok(armor(payload.as_slice()))
    }

    pub fn decode(code: &str) -> (r: Result<EnrollmentInvite, Error>)
        ensures
            match enrollment_invite_of(code@) {
                Ok(i) => r is Ok && r->Ok_0@ == i,
                Err(e) => r is Err && r->Err_0 == e,
            },
    {
        let text = code.as_bytes();
        if text.len() > MAX_ENROLLMENT {
            return Err(Error::MessageTooLarge);
        }
        let bytes = match unarmor(text) {
            Some(bytes) => bytes,
            None => return Err(Error::Protocol("enrollment invitation")),
        };
        let mut r = Reader::new(bytes.as_slice());
        r.array(5)?;
        read_version(&mut r, 1)?;
        let contact = PeerInvite::decode(r.text(MAX_INVITE)?)?;
        let expires_at: u64 = r.u()?;
        let id: Id = r.fixed()?;
        let secret: [u8; 32] = r.fixed()?;
        r.end()?;
        let invite = EnrollmentInvite { contact, expires_at, id, secret };
        let again = invite.encode()?;
        proof {
            if encode_utf8(again@) == encode_utf8(code@) {
                lemma_utf8_injective(again@, code@);
            }
        }
        if !same_bytes(again.as_str().as_bytes(), text) {
            return Err(Error::Protocol("noncanonical enrollment invite"));
        }
        Ok(invite)
    }

    /// Whether an endpoint may redeem this invitation. Its configured root must match the
    /// invitation's: the inviter cannot replace it.
    pub fn review(&self, trust: &Trust, clock: Option<u64>) -> (r: Result<(), Error>)
        ensures
            r == redeem_review(self@, trust@, clock),
    {
        if !same_bytes(&trust.realm_id(), &self.contact.realm_id) || !trust.root().same(
            &self.contact.authority,
        ) {
            return Err(Error::Unauthorized);
        }
        match clock {
            None => Err(Error::Clock),
            Some(now) => {
                if now >= self.expires_at {
                    Err(Error::CertificateExpired)
                } else {
                    Ok(())
                }
            },
        }
    }

    /// The request to redeem this invitation.
    pub fn request(&self) -> (b: Vec<u8>)
        ensures
            b@ == redeem_bytes(self@.id, self@.secret),
    {
        redeem_request(self.id, self.secret)
    }
}

fn redeem_request(id: Id, secret: [u8; 32]) -> (b: Vec<u8>)
    ensures
        b@ == redeem_bytes(id@, secret@),
{
    let mut w = Writer::new();
    w.array(3);
    w.u(1);
    w.bytes(&id);
    w.bytes(&secret);
    w.finish()
}

/// Whether a frame may be a request to redeem an invitation.
pub fn accepts_redeem(header: &Header) -> (r: Result<(), Error>)
    ensures
        r == if header.kind == HELLO && header.metadata <= MAX_REDEEM {
            Ok::<(), Error>(())
        } else {
            Err(Error::Protocol("enrollment request"))
        },
{
    if header.kind != HELLO || header.metadata > MAX_REDEEM {
        return Err(Error::Protocol("enrollment request"));
    }
    Ok(())
}

/// Reads a request to redeem an invitation.
pub fn parse_redeem(b: &[u8]) -> (r: Result<(Id, [u8; 32]), Error>)
    ensures
        match redeem_of(b@) {
            Ok((id, secret)) => r is Ok && r->Ok_0.0@ == id && r->Ok_0.1@ == secret,
            Err(e) => r is Err && r->Err_0 == e,
        },
{
    let mut r = Reader::new(b);
    r.array(3)?;
    read_version(&mut r, 1)?;
    let id: Id = r.fixed()?;
    let secret: [u8; 32] = r.fixed()?;
    r.end()?;
    canonical(b, redeem_request(id, secret).as_slice())?;
    Ok((id, secret))
}

/// The answer to a request.
pub fn answer_redeem(outcome: &Result<Certificate, Error>) -> (r: (u8, Vec<u8>))
    ensures
        (r.0, r.1@) == redeem_reply(certificate_outcome(*outcome)),
{
    let mut w = Writer::new();
    w.array(2);
    w.u(1);
    match outcome {
        Ok(c) => {
            w.bytes(c.as_bytes());
            (READY, w.finish())
        },
        Err(_) => {
            w.u(1);
            (REFUSAL, w.finish())
        },
    }
}

/// Reads the answer to a request: the certificate, if it is one that this endpoint can act on.
pub fn parse_answer(
    kind: u8,
    b: &[u8],
    trust: &Trust,
    own: EndpointId,
    clock: Option<u64>,
) -> (r: Result<Certificate, Error>)
    ensures
        certificate_outcome(r) == redeemed_certificate(kind, b@, trust@, own@, clock),
{
    if kind != READY {
        return Err(Error::Unauthorized);
    }
    let mut r = Reader::new(b);
    r.array(2)?;
    read_version(&mut r, 1)?;
    let cert = Certificate::from_bytes(r.bytes(MAX_CERT)?)?;
    r.end()?;
    match clock {
        None => Err(Error::Clock),
        Some(now) => {
            trust.verify(&cert, own, now)?;
            Ok(cert)
        },
    }
}

/// Reading the text of an invitation gives back the invitation.
pub proof fn law_invitation_round_trip(i: EnrollmentInviteView)
    requires
        invite_formed(i.contact),
        i.id.len() == 16,
        i.secret.len() == 32,
    ensures
        enrollment_text(i) matches Ok(text) ==> enrollment_invite_of(text) == Ok::<
            EnrollmentInviteView,
            Error,
        >(i),
{
    if enrollment_text(i) is Ok {
        let contact = invite_text(i.contact)->Ok_0;
        law_invite_round_trip(i.contact);
        assert(encode_utf8(contact).len() <= MAX_INVITE);
        let s4 = bytes_item(i.secret);
        let s3 = bytes_item(i.id) + s4;
        let s2 = uint_item(i.expires_at) + s3;
        let s1 = text_item(contact) + s2;
        lemma_take_array(5, 5, uint_item(1) + s1);
        lemma_take_version(1, s1);
        lemma_take_text(contact, MAX_INVITE as nat, s2);
        lemma_take_u(i.expires_at, s3);
        lemma_take_fixed(i.id, 16, s4);
        lemma_take_last_fixed(i.secret, 32);
        let payload = enrollment_payload(i, contact);
        assert(enrollment_of_payload(payload) == Ok::<EnrollmentInviteView, Error>(i));
        lemma_unspelled(payload);
        assert(encode_utf8(spelled(payload)).len() <= MAX_ENROLLMENT) by {
            reveal(array_head);
            reveal(uint_item);
            reveal(bytes_item);
            reveal(text_item);
            lemma_head_len(4, 5);
            lemma_head_len(0, 1);
            lemma_head_len(0, i.expires_at);
            lemma_head_len(2, 16);
            lemma_head_len(2, 32);
            lemma_head_len(3, encode_utf8(contact).len() as u64);
            lemma_spelled_len(payload);
            lemma_spelled_ascii(payload);
            vstd::utf8::is_ascii_chars_encode_utf8(spelled(payload));
            lemma_invite_len(i.contact);
        }
    }
}

/// A request to redeem an invitation is read as it was made.
pub proof fn law_redeem_round_trip(id: Seq<u8>, secret: Seq<u8>)
    requires
        id.len() == 16,
        secret.len() == 32,
    ensures
        redeem_of(redeem_bytes(id, secret)) == Ok::<(Seq<u8>, Seq<u8>), Error>((id, secret)),
{
    let s2 = bytes_item(secret);
    let s1 = bytes_item(id) + s2;
    lemma_take_array(3, 3, uint_item(1) + s1);
    lemma_take_version(1, s1);
    lemma_take_fixed(id, 16, s2);
    lemma_take_last_fixed(secret, 32);
}

// The authority's side

/// Whether an authority can give out invitations from an endpoint, or why not.
pub open spec fn service_review(
    a: AuthorityView,
    own: Seq<u8>,
    c: ConfigView,
) -> Result<(), Error> {
    if public_key(a.secret) == own || c.trust.root != public_key(a.secret) || c.trust.realm
        != a.realm {
        Err(Error::Config("enrollment root and transport identity"))
    } else if c.max_peers == 0 || c.max_peers > 256 || c.max_topics == 0 || c.max_topics > 256
        || c.metadata_bytes < 256 * 1024 || c.handshake_timeout == 0 {
        Err(Error::Config("enrollment limits"))
    } else {
        Ok(())
    }
}

/// Whether an authority can give out invitations from an endpoint. Its transport key must differ
/// from its signing key.
pub fn review_service(authority: &Authority, identity: &Identity, config: &Config) -> (r: Result<
    (),
    Error,
>)
    ensures
        r == service_review(authority@, public_key(identity@), config@),
{
    let root = authority.public_key();
    if root.same(&identity.endpoint_id()) || !config.trust.root().same(&root) || !same_bytes(
        &config.trust.realm_id(),
        &authority.realm_id(),
    ) {
        return Err(Error::Config("enrollment root and transport identity"));
    }
    if config.max_peers == 0 || config.max_peers > 256 || config.max_topics == 0
        || config.max_topics > 256 || config.metadata_bytes < 256 * 1024
        || config.handshake_timeout.is_zero() {
        return Err(Error::Config("enrollment limits"));
    }
    Ok(())
}

/// An invitation that was given out, as a value.
#[verifier::ext_equal]
pub struct InvitationView {
    pub hash: Seq<u8>,
    pub expires: u64,
    pub valid_for: u64,
    pub permissions: Seq<PermissionView>,
    pub limits: CertificateLimits,
    pub redeemed: Option<(Seq<u8>, CertificateView)>,
}

/// An invitation that was given out: the digest of its secret, what it grants, and to whom it was
/// granted. `P` is whatever accounts for the memory that it takes.
pub struct Invitation<P> {
    hash: [u8; 32],
    expires: u64,
    valid_for: u64,
    permissions: Vec<Permission>,
    limits: CertificateLimits,
    redeemed: Option<(EndpointId, Certificate)>,
    memory: P,
}

impl<P> Invitation<P> {
    /// What an invitation brings does not live for ever.
    #[verifier::type_invariant]
    closed spec fn short(self) -> bool {
        self.valid_for <= MAX_INVITE_SECS
    }
}

/// To whom an invitation was granted, as a value.
pub open spec fn redeemer(r: Option<(EndpointId, Certificate)>) -> Option<
    (Seq<u8>, CertificateView),
> {
    match r {
        Some((peer, c)) => Some((peer@, c@)),
        None => None,
    }
}

impl<P> View for Invitation<P> {
    type V = InvitationView;

    closed spec fn view(&self) -> InvitationView {
        InvitationView {
            hash: self.hash@,
            expires: self.expires,
            valid_for: self.valid_for,
            permissions: permission_views(self.permissions@),
            limits: self.limits,
            redeemed: redeemer(self.redeemed),
        }
    }
}

/// The invitations of an authority, as a value.
pub type Invitations = Map<Seq<u8>, InvitationView>;

/// The invitations of an authority. They are kept in memory: none survives a restart.
pub struct EnrollmentService<P> {
    invitations: OrderedMap<Id, Invitation<P>>,
}

impl<P> View for EnrollmentService<P> {
    type V = Invitations;

    closed spec fn view(&self) -> Invitations {
        self.invitations@
    }
}

/// What an invitation is to grant, and for how long.
pub struct InvitationTerms {
    pub permissions: Vec<Permission>,
    pub limits: CertificateLimits,
    pub valid_for: Duration,
    pub lifetime: Duration,
}

/// What an invitation is to grant, as a value.
#[verifier::ext_equal]
pub struct TermsView {
    pub permissions: Seq<PermissionView>,
    pub limits: CertificateLimits,
    pub valid_for: nat,
    pub lifetime: nat,
}

impl View for InvitationTerms {
    type V = TermsView;

    open spec fn view(&self) -> TermsView {
        TermsView {
            permissions: permission_views(self.permissions@),
            limits: self.limits,
            valid_for: self.valid_for@,
            lifetime: self.lifetime@,
        }
    }
}

/// Whole seconds of a span in nanoseconds.
pub open spec fn whole_secs(n: nat) -> nat {
    n / 1_000_000_000
}

/// Whether terms are within what an invitation can have.
pub open spec fn terms_valid(t: TermsView) -> bool {
    &&& t.permissions.len() <= MAX_PERMISSIONS
    &&& 1 <= whole_secs(t.lifetime) <= MAX_INVITE_SECS
    &&& 1 <= whole_secs(t.valid_for) <= MAX_INVITE_SECS
}

/// What keeping an invitation costs.
pub open spec fn invitation_charge(t: TermsView) -> nat {
    MAX_CERT as nat + 4096 + permissions_charge(t.permissions)
}

/// Whether an invitation can be given out, and what keeping it costs, or why not. The certificate
/// that it will bring is tried out first, for the authority's own endpoint under the identifier
/// `trial`.
pub open spec fn invitation_review(
    m: Invitations,
    a: AuthorityView,
    own: Seq<u8>,
    t: TermsView,
    clock: Option<u64>,
    max: nat,
    trial: Seq<u8>,
) -> Result<nat, Error> {
    match clock {
        None => Err(Error::Clock),
        Some(now) => if m.dom().len() >= max {
            Err(Error::QueueFull)
        } else if !terms_valid(t) {
            Err(Error::Config("invitation limits"))
        } else {
            match issued(
                a,
                trial,
                own,
                t.permissions,
                now,
                (now + whole_secs(t.valid_for)) as u64,
                t.limits,
            ) {
                Err(e) => Err(e),
                Ok(_) => Ok(invitation_charge(t)),
            }
        },
    }
}

/// An invitation that nobody has redeemed.
pub open spec fn fresh_invitation(t: TermsView, now: u64, secret: Seq<u8>) -> InvitationView {
    InvitationView {
        hash: sha256(secret),
        expires: (now + whole_secs(t.lifetime)) as u64,
        valid_for: whole_secs(t.valid_for) as u64,
        permissions: t.permissions,
        limits: t.limits,
        redeemed: None,
    }
}

/// What comes of a request to redeem an invitation, where a certificate that is issued gets the
/// identifier `trial`: the invitations after it, and the certificate. An invitation brings a
/// certificate to one endpoint, and to that one again.
pub open spec fn after_redeem(
    m: Invitations,
    a: AuthorityView,
    peer: Seq<u8>,
    id: Seq<u8>,
    secret: Seq<u8>,
    clock: Option<u64>,
    trial: Seq<u8>,
) -> (Invitations, Result<CertificateView, Error>) {
    match clock {
        None => (m, Err(Error::Clock)),
        Some(now) => if !m.contains_key(id) || m[id].expires <= now || m[id].hash != sha256(
            secret,
        ) {
            (m, Err(Error::Unauthorized))
        } else {
            match m[id].redeemed {
                Some((subject, c)) => if subject == peer && now < c.claims.expires {
                    (m, Ok(c))
                } else {
                    (m, Err(Error::Unauthorized))
                },
                None => match issued(
                    a,
                    trial,
                    peer,
                    m[id].permissions,
                    now,
                    (now + m[id].valid_for) as u64,
                    m[id].limits,
                ) {
                    Err(e) => (m, Err(e)),
                    Ok(c) => (
                        m.insert(id, InvitationView { redeemed: Some((peer, c)), ..m[id] }),
                        Ok(c),
                    ),
                },
            }
        },
    }
}

/// The invitations that have not expired.
pub open spec fn invitations_left(m: Invitations, now: u64) -> Invitations {
    kept(m, |id: Seq<u8>, i: InvitationView| now < i.expires)
}

fn charge_of_permissions(permissions: &Vec<Permission>) -> (n: usize)
    requires
        permissions@.len() <= MAX_PERMISSIONS,
    ensures
        n == permissions_charge(permission_views(permissions@)),
        n <= 384 * MAX_PERMISSIONS,
{
    let ghost views = permission_views(permissions@);
    let mut n: usize = 0;
    let mut i: usize = 0;
    assert(views.take(0) =~= Seq::<PermissionView>::empty());
    while i < permissions.len()
        invariant
            i <= permissions.len() <= MAX_PERMISSIONS,
            views == permission_views(permissions@),
            n == permissions_charge(views.take(i as int)),
            n <= 384 * i,
        decreases permissions.len() - i,
    {
        let p = &permissions[i];
        proof {
            use_type_invariant(&p.topic);
            let next = views.take(i + 1);
            assert(next.drop_last() =~= views.take(i as int));
            assert(next.last() == p@);
        }
        n = n + p.topic.as_str().as_bytes().len() + 128;
        i = i + 1;
    }
    assert(views.take(i as int) =~= views);
    n
}

impl<P> EnrollmentService<P> {
    pub fn new() -> (s: Self)
        ensures
            s@ == Map::<Seq<u8>, InvitationView>::empty(),
    {
        EnrollmentService { invitations: OrderedMap::new() }
    }

    /// Whether an invitation can be given out, and what keeping it costs, or why not.
    pub fn review_invite(
        &self,
        authority: &Authority,
        own: EndpointId,
        terms: &InvitationTerms,
        clock: Option<u64>,
        max: usize,
        trial: Id,
    ) -> (r: Result<usize, Error>)
        requires
            clock matches Some(now) ==> now + MAX_INVITE_SECS <= u64::MAX,
        ensures
            match invitation_review(
                self@,
                authority@,
                own@,
                terms@,
                clock,
                max as nat,
                trial@,
            ) {
                Ok(n) => r is Ok && r->Ok_0 == n,
                Err(e) => r is Err && r->Err_0 == e,
            },
    {
        let now = match clock {
            Some(now) => now,
            None => return Err(Error::Clock),
        };
        if self.invitations.len() >= max {
            return Err(Error::QueueFull);
        }
        let lifetime = terms.lifetime.as_secs();
        let valid_for = terms.valid_for.as_secs();
        if terms.permissions.len() > MAX_PERMISSIONS || lifetime == 0 || lifetime > MAX_INVITE_SECS
            || valid_for == 0 || valid_for > MAX_INVITE_SECS {
            return Err(Error::Config("invitation limits"));
        }
        authority.issue_as(
            trial,
            own,
            copy_permissions(&terms.permissions),
            now,
            now + valid_for,
            terms.limits,
        )?;
        Ok(MAX_CERT + 4096 + charge_of_permissions(&terms.permissions))
    }

    /// Gives out the invitation with the given identifier and secret.
    pub fn add_invite(
        &mut self,
        terms: InvitationTerms,
        contact: PeerInvite,
        now: u64,
        memory: P,
        id: Id,
        secret: [u8; 32],
    ) -> (i: EnrollmentInvite)
        requires
            now + MAX_INVITE_SECS <= u64::MAX,
            terms_valid(terms@),
        ensures
            final(self)@ == old(self)@.insert(id@, fresh_invitation(terms@, now, secret@)),
            i@ == (EnrollmentInviteView {
                contact: contact@,
                expires_at: (now + whole_secs(terms@.lifetime)) as u64,
                id: id@,
                secret: secret@,
            }),
    {
        let expires: u64 = now + terms.lifetime.as_secs();
        let valid_for = terms.valid_for.as_secs();
        let InvitationTerms { permissions, limits, .. } = terms;
        self.invitations.insert(
            id,
            Invitation {
                hash: digest(&secret),
                expires,
                valid_for,
                permissions,
                limits,
                redeemed: None,
                memory,
            },
        );
        EnrollmentInvite { contact, expires_at: expires, id, secret }
    }

    /// Redeems an invitation. A certificate that is issued gets the identifier `trial`.
    pub fn redeem_as(
        &mut self,
        authority: &Authority,
        peer: EndpointId,
        id: &Id,
        secret: &[u8; 32],
        clock: Option<u64>,
        trial: Id,
    ) -> (r: Result<Certificate, Error>)
        requires
            clock matches Some(now) ==> now + MAX_INVITE_SECS <= u64::MAX,
        ensures
            (final(self)@, certificate_outcome(r)) == after_redeem(
                old(self)@,
                authority@,
                peer@,
                id@,
                secret@,
                clock,
                trial@,
            ),
    {
        let now = match clock {
            Some(now) => now,
            None => return Err(Error::Clock),
        };
        let mut grant = match self.invitations.remove(id) {
            Some(grant) => grant,
            None => return Err(Error::Unauthorized),
        };
        let ghost start = old(self)@;
        let ghost kept = grant@;
        proof {
            use_type_invariant(&grant);
            assert(start.remove(id@).insert(id@, kept) =~= start);
            assert forall|g: InvitationView| #[trigger] start.remove(id@).insert(id@, g)
                == start.insert(id@, g) by {
                assert(start.remove(id@).insert(id@, g) =~= start.insert(id@, g));
            }
        }
        if grant.expires <= now || !same_bytes(&grant.hash, &digest(secret)) {
            self.invitations.insert(*id, grant);
            return Err(Error::Unauthorized);
        }
        let answer: Option<Result<Certificate, Error>> = match &grant.redeemed {
            Some((subject, cert)) => {
                if subject.same(&peer) && now < cert.expires_at() {
                    Some(Ok(cert.clone()))
                } else {
                    Some(Err(Error::Unauthorized))
                }
            },
            None => None,
        };
        if let Some(answer) = answer {
            self.invitations.insert(*id, grant);
            return answer;
        }
        let r = authority.issue_as(
            trial,
            peer,
            copy_permissions(&grant.permissions),
            now,
            now + grant.valid_for,
            grant.limits,
        );
        match r {
            Ok(cert) => {
                let Invitation { hash, expires, valid_for, permissions, limits, memory, .. } = grant;
                let grant = Invitation {
                    hash,
                    expires,
                    valid_for,
                    permissions,
                    limits,
                    redeemed: Some((peer, cert.clone())),
                    memory,
                };
                self.invitations.insert(*id, grant);
                Ok(cert)
            },
            Err(e) => {
                self.invitations.insert(*id, grant);
                Err(e)
            },
        }
    }

    /// Redeems an invitation.
    pub fn redeem(
        &mut self,
        authority: &Authority,
        peer: EndpointId,
        id: &Id,
        secret: &[u8; 32],
        clock: Option<u64>,
    ) -> (r: Result<Certificate, Error>)
        requires
            clock matches Some(now) ==> now + MAX_INVITE_SECS <= u64::MAX,
        ensures
            redeemed_somehow(
                old(self)@,
                final(self)@,
                authority@,
                peer@,
                id@,
                secret@,
                clock,
                certificate_outcome(r),
            ),
    {
        let trial = random_id();
        let r = self.redeem_as(authority, peer, id, secret, clock, trial);
        assert((self@, certificate_outcome(r)) == after_redeem(
            old(self)@,
            authority@,
            peer@,
            id@,
            secret@,
            clock,
            trial@,
        ));
        r
    }

    /// Forgets the invitations that have expired.
    pub fn prune(&mut self, now: u64)
        ensures
            final(self)@ == kept(
                old(self)@,
                |id: Seq<u8>, i: InvitationView| now < i.expires,
            ),
            final(self)@ == invitations_left(old(self)@, now),
    {
        let keep = |id: &Id, i: &Invitation<P>| -> (b: bool)
            ensures
                b == (now < i@.expires),
            { now < i.expires };
        self.invitations.retain(keep, Ghost(|id: Seq<u8>, i: InvitationView| now < i.expires));
    }
}

impl InvitationTerms {
    /// Whether terms are short enough to be asked for.
    pub fn check(&self) -> (r: Result<(), Error>)
        ensures
            r == if self@.permissions.len() > MAX_PERMISSIONS {
                Err::<(), Error>(Error::MessageTooLarge)
            } else {
                Ok(())
            },
    {
        if self.permissions.len() > MAX_PERMISSIONS {
            return Err(Error::MessageTooLarge);
        }
        Ok(())
    }
}

impl<P> EnrollmentService<P> {
    /// Gives out an invitation, if that is possible and what it takes can be set aside.
    pub fn invite<M: Meter<P>>(
        &mut self,
        authority: &Authority,
        own: EndpointId,
        contact: PeerInvite,
        terms: InvitationTerms,
        clock: Option<u64>,
        max: usize,
        meter: &mut Ledger<M, AskedView>,
    ) -> (r: Result<EnrollmentInvite, Error>)
        requires
            clock matches Some(now) ==> now + MAX_INVITE_SECS <= u64::MAX,
        ensures
            invited_somehow(
                old(self)@,
                final(self)@,
                authority@,
                own@,
                contact@,
                terms@,
                clock,
                max as nat,
                invite_outcome(r),
                since(old(meter).log(), final(meter).log()),
            ),
            old(meter).log().is_prefix_of(final(meter).log()),
    {
        let trial = random_id();
        let ghost before = meter.log();
        let ghost start = self@;
        let ghost what = terms@;
        let charge = match self.review_invite(authority, own, &terms, clock, max, trial) {
            Ok(n) => n,
            Err(e) => {
                let ghost out = Err::<EnrollmentInviteView, Error>(e);
                assert(invited(
                    start,
                    start,
                    authority@,
                    own@,
                    contact@,
                    what,
                    clock,
                    max as nat,
                    trial@,
                    Seq::empty(),
                    Seq::empty(),
                    since(before, meter.log()),
                    out,
                ));
                return Err(e);
            },
        };
        let memory = match meter.reserve(charge) {
            Ok(memory) => memory,
            Err(e) => {
                let ghost out = Err::<EnrollmentInviteView, Error>(e);
                assert(invited(
                    start,
                    start,
                    authority@,
                    own@,
                    contact@,
                    what,
                    clock,
                    max as nat,
                    trial@,
                    Seq::empty(),
                    Seq::empty(),
                    since(before, meter.log()),
                    out,
                ));
                return Err(e);
            },
        };
        let now = match clock {
            Some(now) => now,
            None => return Err(Error::Clock),
        };
        let id = random_id();
        let secret = random_bytes();
        let i = self.add_invite(terms, contact, now, memory, id, secret);
        assert(invited(
            start,
            self@,
            authority@,
            own@,
            contact@,
            what,
            clock,
            max as nat,
            trial@,
            id@,
            secret@,
            since(before, meter.log()),
            Ok(i@),
        ));
        Ok(i)
    }
}

/// What a result says of an invitation.
pub open spec fn invite_outcome(r: Result<EnrollmentInvite, Error>) -> Result<
    EnrollmentInviteView,
    Error,
> {
    match r {
        Ok(i) => Ok(i@),
        Err(e) => Err(e),
    }
}

/// Whether giving out an invitation came to this, where `trial`, `id` and `secret` were drawn and
/// `asked` is what was asked for meanwhile.
pub open spec fn invited(
    before: Invitations,
    after: Invitations,
    a: AuthorityView,
    own: Seq<u8>,
    contact: InviteView,
    t: TermsView,
    clock: Option<u64>,
    max: nat,
    trial: Seq<u8>,
    id: Seq<u8>,
    secret: Seq<u8>,
    asked: Seq<AskedView>,
    r: Result<EnrollmentInviteView, Error>,
) -> bool {
    match invitation_review(before, a, own, t, clock, max, trial) {
        Err(e) => r == Err::<EnrollmentInviteView, Error>(e) && after == before && asked.len() == 0,
        Ok(n) => asked.len() == 1 && asked[0].bytes == n && match asked[0].refusal {
            Some(e) => r == Err::<EnrollmentInviteView, Error>(e) && after == before,
            None => {
                let now = clock->Some_0;
                &&& after == before.insert(id, fresh_invitation(t, now, secret))
                &&& r == Ok::<EnrollmentInviteView, Error>(
                    EnrollmentInviteView {
                        contact,
                        expires_at: (now + whole_secs(t.lifetime)) as u64,
                        id,
                        secret,
                    },
                )
            },
        },
    }
}

/// Whether giving out an invitation came to this, whatever was drawn.
pub open spec fn invited_somehow(
    before: Invitations,
    after: Invitations,
    a: AuthorityView,
    own: Seq<u8>,
    contact: InviteView,
    t: TermsView,
    clock: Option<u64>,
    max: nat,
    r: Result<EnrollmentInviteView, Error>,
    asked: Seq<AskedView>,
) -> bool {
    exists|trial: Seq<u8>, id: Seq<u8>, secret: Seq<u8>|
        trial.len() == 16 && (r is Ok ==> id.len() == 16 && secret.len() == 32)
            && #[trigger] invited(
            before,
            after,
            a,
            own,
            contact,
            t,
            clock,
            max,
            trial,
            id,
            secret,
            asked,
            r,
        )
}

/// How many connections have come in since the count was last begun anew.
#[derive(Clone, Copy, Debug)]
pub struct Attempts {
    pub count: usize,
}

impl Attempts {
    pub fn new() -> (a: Attempts)
        ensures
            a.count == 0,
    {
        Attempts { count: 0 }
    }

    /// Counts a connection that comes in. Beyond four for each peer that there may be, connections
    /// are turned away.
    pub fn accept(&mut self, max_peers: usize) -> (accepted: bool)
        ensures
            final(self).count == if old(self).count == usize::MAX {
                usize::MAX
            } else {
                (old(self).count + 1) as usize
            },
            accepted == (final(self).count <= max_peers * 4),
    {
        if self.count < usize::MAX {
            self.count = self.count + 1;
        }
        self.count as u128 <= max_peers as u128 * 4
    }
}

/// Whether a request came to this, whatever identifier a certificate was issued under.
pub open spec fn redeemed_somehow(
    before: Invitations,
    after: Invitations,
    a: AuthorityView,
    peer: Seq<u8>,
    id: Seq<u8>,
    secret: Seq<u8>,
    clock: Option<u64>,
    r: Result<CertificateView, Error>,
) -> bool {
    exists|trial: Seq<u8>|
        trial.len() == 16 && (after, r) == #[trigger] after_redeem(
            before,
            a,
            peer,
            id,
            secret,
            clock,
            trial,
        )
}

/// An invitation that has brought one endpoint a certificate brings none to any other.
pub proof fn law_invitation_is_single_use(
    m: Invitations,
    a: AuthorityView,
    peer: Seq<u8>,
    other: Seq<u8>,
    id: Seq<u8>,
    secret: Seq<u8>,
    clock: Option<u64>,
    later: Option<u64>,
    trial: Seq<u8>,
    trial2: Seq<u8>,
)
    requires
        after_redeem(m, a, peer, id, secret, clock, trial).1 is Ok,
        other != peer,
    ensures
        ({
            let (w, _) = after_redeem(m, a, peer, id, secret, clock, trial);
            after_redeem(w, a, other, id, secret, later, trial2).1 is Err
        }),
{
}

/// Something that happens to the invitations of an authority.
#[verifier::ext_equal]
pub enum InvitationEvent {
    /// An invitation is given out.
    Given { id: Seq<u8>, invitation: InvitationView },
    /// Someone asks to redeem one.
    Asked { peer: Seq<u8>, id: Seq<u8>, secret: Seq<u8>, clock: Option<u64>, trial: Seq<u8> },
    /// Those that have expired are forgotten.
    Pruned { now: u64 },
}

/// The invitations after something happens to them.
pub open spec fn after_event(m: Invitations, a: AuthorityView, e: InvitationEvent) -> Invitations {
    match e {
        InvitationEvent::Given { id, invitation } => m.insert(id, invitation),
        InvitationEvent::Asked { peer, id, secret, clock, trial } => after_redeem(
            m,
            a,
            peer,
            id,
            secret,
            clock,
            trial,
        ).0,
        InvitationEvent::Pruned { now } => kept(
            m,
            |id: Seq<u8>, i: InvitationView| now < i.expires,
        ),
    }
}

/// The invitations after the first `n` things have happened to them.
pub open spec fn after_events(
    m: Invitations,
    a: AuthorityView,
    events: Seq<InvitationEvent>,
    n: nat,
) -> Invitations
    decreases n,
{
    if n == 0 {
        m
    } else {
        after_event(after_events(m, a, events, (n - 1) as nat), a, events[n - 1])
    }
}

/// Whether the `i`-th thing that happens is that `peer` gets a certificate for the invitation `id`.
pub open spec fn gets_certificate(
    m: Invitations,
    a: AuthorityView,
    events: Seq<InvitationEvent>,
    i: int,
    id: Seq<u8>,
    peer: Seq<u8>,
) -> bool {
    &&& 0 <= i < events.len()
    &&& events[i] matches InvitationEvent::Asked { peer: p, id: k, secret, clock, trial } && p
        == peer && k == id && after_redeem(
        after_events(m, a, events, i as nat),
        a,
        p,
        k,
        secret,
        clock,
        trial,
    ).1 is Ok
}

/// Whether the invitation is gone, or belongs to `peer`.
spec fn spent_on(m: Invitations, id: Seq<u8>, peer: Seq<u8>) -> bool {
    m.contains_key(id) ==> (m[id].redeemed matches Some((p, _)) && p == peer)
}

proof fn lemma_stays_spent(
    m: Invitations,
    a: AuthorityView,
    events: Seq<InvitationEvent>,
    i: int,
    n: nat,
    id: Seq<u8>,
    peer: Seq<u8>,
)
    requires
        0 <= i < n <= events.len(),
        gets_certificate(m, a, events, i, id, peer),
        forall|k: int|
            0 <= k < events.len() ==> !((#[trigger] events[k]) matches InvitationEvent::Given {
                id: g,
                ..
            } && g == id),
    ensures
        spent_on(after_events(m, a, events, n), id, peer),
    decreases n,
{
    let l = (n - 1) as nat;
    if i < l {
        lemma_stays_spent(m, a, events, i, l, id, peer);
    }
    let e = events[l as int];
    assert(!(e matches InvitationEvent::Given { id: g, .. } && g == id));
}

/// However often an invitation is asked for, by whomever and whatever happens in between, it brings
/// a certificate to one endpoint at most.
pub proof fn law_invitation_serves_one_endpoint(
    m: Invitations,
    a: AuthorityView,
    events: Seq<InvitationEvent>,
    i: int,
    j: int,
    id: Seq<u8>,
    first: Seq<u8>,
    second: Seq<u8>,
)
    requires
        gets_certificate(m, a, events, i, id, first),
        gets_certificate(m, a, events, j, id, second),
        forall|k: int|
            0 <= k < events.len() ==> !((#[trigger] events[k]) matches InvitationEvent::Given {
                id: g,
                ..
            } && g == id),
    ensures
        first == second,
{
    if i < j {
        lemma_stays_spent(m, a, events, i, j as nat, id, first);
    } else if j < i {
        lemma_stays_spent(m, a, events, j, i as nat, id, second);
    }
}

/// The endpoint that redeemed an invitation gets the same certificate again, as long as the
/// invitation and the certificate last.
pub proof fn law_redeeming_again_gives_the_same(
    m: Invitations,
    a: AuthorityView,
    peer: Seq<u8>,
    id: Seq<u8>,
    secret: Seq<u8>,
    clock: Option<u64>,
    later: u64,
    trial: Seq<u8>,
    trial2: Seq<u8>,
)
    requires
        after_redeem(m, a, peer, id, secret, clock, trial).1 matches Ok(c) && later
            < c.claims.expires,
        later < m[id].expires,
    ensures
        ({
            let (w, r) = after_redeem(m, a, peer, id, secret, clock, trial);
            after_redeem(w, a, peer, id, secret, Some(later), trial2) == (w, r)
        }),
{
}

/// Without the secret an invitation brings nothing.
pub proof fn law_invitation_needs_its_secret(
    m: Invitations,
    a: AuthorityView,
    peer: Seq<u8>,
    id: Seq<u8>,
    secret: Seq<u8>,
    clock: Option<u64>,
    trial: Seq<u8>,
)
    requires
        m.contains_key(id) ==> m[id].hash != sha256(secret),
    ensures
        after_redeem(m, a, peer, id, secret, clock, trial).1 is Err,
        after_redeem(m, a, peer, id, secret, clock, trial).0 == m,
{
}

/// An invitation and a request to redeem it that are read are the one way to write what they say.
pub proof fn law_enrollment_canonical(text: Seq<char>, b: Seq<u8>)
    ensures
        enrollment_invite_of(text) matches Ok(i) ==> enrollment_text(i) == Ok::<Seq<char>, Error>(
            text,
        ),
        redeem_of(b) matches Ok((id, secret)) ==> redeem_bytes(id, secret) == b,
{
}

} // verus!
