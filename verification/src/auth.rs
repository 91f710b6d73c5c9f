//! Certificates, the authority that issues them, and the trust that endpoints place in it.
use crate::cbor::{
    array_head, bytes_item, canonical, canonical_check, empty_map_item, group_read_back,
    lemma_head_len, lemma_nothing_after, lemma_take_array, lemma_take_fixed, lemma_take_last_u,
    lemma_take_list, lemma_take_u, take_array, take_end, take_fixed, take_list, take_u, text_item,
    uint_item, Reader, Writer,
};
use crate::cose::{
    container, container_parts, lemma_container_canonical, lemma_container_parts, parse_cose,
    sign_cose, signed_bytes, verified_payload, verify_cose,
};
use crate::crypto::{
    is_public_key, proper_commitment, public_key, random_id, random_secret, signature, EndpointId,
    Id, Secret,
};
use crate::error::Error;
use crate::identity::Identity;
use crate::message::{text_less, valid_topic, Topic};
use crate::octets::{bytes_less, lemma_concat_assoc, same_bytes};
use crate::ordered::{
    increasing, lemma_listing_exists, lemma_pairs_map_index, lemma_pairs_unique, listing,
    pairs_map, Key, OrderedMap,
};
use crate::record::{
    group_fields_back, lemma_take_all, lemma_take_all_error, lemma_take_all_len,
    lemma_take_endpoint, lemma_take_version, put_all, read_endpoint, read_topic, read_version,
    take_all, take_endpoint, take_topic, take_version, Put, Take,
};
use vstd::prelude::*;
use vstd::slice::slice_to_vec;
use vstd::utf8::encode_utf8;

verus! {

/// The identifier of a realm, the group that one authority admits endpoints to.
pub type RealmId = [u8; 16];

/// The longest certificate, in bytes.
pub const MAX_CERT: usize = 15360;

/// The most permissions that one certificate grants.
pub const MAX_PERMISSIONS: usize = 256;

/// The longest signed list of revoked certificates, in bytes.
pub const MAX_REVOCATION: usize = 131072;

/// The most certificates that can be revoked.
pub const MAX_REVOKED: usize = 4096;

/// The purpose that certificates are signed for.
pub open spec fn certificate_context() -> Seq<u8> {
    encode_utf8("iroh-mq/certificate/v1"@)
}

/// The purpose that lists of revoked certificates are signed for.
pub open spec fn revocation_context() -> Seq<u8> {
    encode_utf8("iroh-mq/revocation/v1"@)
}

// Permissions

/// What a certificate allows on one topic.
#[derive(Debug, PartialEq, Eq)]
pub struct Permission {
    pub topic: Topic,
    pub publish: bool,
    pub subscribe: bool,
}

/// What a certificate allows on one topic, as a value.
#[verifier::ext_equal]
pub struct PermissionView {
    pub topic: Seq<char>,
    pub publish: bool,
    pub subscribe: bool,
}

impl View for Permission {
    type V = PermissionView;

    open spec fn view(&self) -> PermissionView {
        PermissionView {
            topic: self.topic@,
            publish: self.publish,
            subscribe: self.subscribe,
        }
    }
}

impl Clone for Permission {
    fn clone(&self) -> (p: Self)
        ensures
            p@ == self@,
    {
        Permission {
            topic: self.topic.clone(),
            publish: self.publish,
            subscribe: self.subscribe,
        }
    }
}

/// The permission on `topic` with the given rights, if that names a topic.
pub open spec fn permission_on(topic: Seq<char>, publish: bool, subscribe: bool) -> Result<
    PermissionView,
    Error,
> {
    if valid_topic(topic) {
        Ok(PermissionView { topic, publish, subscribe })
    } else {
        Err(Error::InvalidTopic)
    }
}

impl Permission {
    pub fn publish(topic: &str) -> (r: Result<Permission, Error>)
        ensures
            match permission_on(topic@, true, false) {
                Ok(p) => r is Ok && r->Ok_0@ == p,
                Err(e) => r is Err && r->Err_0 == e,
            },
    {
        Ok(Permission { topic: Topic::new(topic)?, publish: true, subscribe: false })
    }

    pub fn subscribe(topic: &str) -> (r: Result<Permission, Error>)
        ensures
            match permission_on(topic@, false, true) {
                Ok(p) => r is Ok && r->Ok_0@ == p,
                Err(e) => r is Err && r->Err_0 == e,
            },
    {
        Ok(Permission { topic: Topic::new(topic)?, publish: false, subscribe: true })
    }

    pub fn both(topic: &str) -> (r: Result<Permission, Error>)
        ensures
            match permission_on(topic@, true, true) {
                Ok(p) => r is Ok && r->Ok_0@ == p,
                Err(e) => r is Err && r->Err_0 == e,
            },
    {
        Ok(Permission { topic: Topic::new(topic)?, publish: true, subscribe: true })
    }
}

/// The views of a list of permissions.
pub open spec fn permission_views(ps: Seq<Permission>) -> Seq<PermissionView> {
    Seq::new(ps.len(), |i: int| ps[i]@)
}

/// Ceilings that a certificate puts on its holder.
#[derive(Debug, Clone, Copy, PartialEq, Eq, Structural)]
pub struct CertificateLimits {
    /// Zero means no additional certificate ceiling.
    pub max_payload: u64,
    /// Zero means no additional certificate ceiling.
    pub max_subscriptions: u64,
}

impl Default for CertificateLimits {
    fn default() -> (l: Self)
        ensures
            l == (CertificateLimits { max_payload: 0, max_subscriptions: 0 }),
    {
        CertificateLimits { max_payload: 0, max_subscriptions: 0 }
    }
}

// Claims

/// The rights of a permission as a number.
pub open spec fn permission_mask(p: PermissionView) -> u64 {
    if p.publish && p.subscribe {
        3
    } else if p.subscribe {
        2
    } else if p.publish {
        1
    } else {
        0
    }
}

pub open spec fn permission_bytes(p: PermissionView) -> Seq<u8> {
    array_head(2) + (text_item(p.topic) + uint_item(permission_mask(p)))
}

pub open spec fn take_permission(s: Seq<u8>) -> Result<(PermissionView, Seq<u8>), Error> {
    match take_array(s, 2) { Err(e) => Err(e), Ok(s) =>
    match take_topic(s) { Err(e) => Err(e), Ok((topic, s)) =>
    match take_u(s) { Err(e) => Err(e), Ok((mask, s)) =>
    if !(1 <= mask <= 3) {
        Err(Error::Protocol("permission mask"))
    } else {
        Ok((PermissionView { topic, publish: mask != 2, subscribe: mask != 1 }, s))
    } } } }
}

pub open spec fn permission_put() -> Put<PermissionView> {
    |p: PermissionView| permission_bytes(p)
}

pub open spec fn permission_take() -> Take<PermissionView> {
    |s: Seq<u8>| take_permission(s)
}

/// What an authority certifies of an endpoint.
#[derive(Debug, PartialEq, Eq)]
pub struct Claims {
    pub realm: RealmId,
    pub issuer: EndpointId,
    pub id: Id,
    pub subject: EndpointId,
    pub not_before: u64,
    pub expires: u64,
    pub permissions: Vec<Permission>,
    pub limits: CertificateLimits,
}

/// What an authority certifies of an endpoint, as a value.
#[verifier::ext_equal]
pub struct ClaimsView {
    pub realm: Seq<u8>,
    pub issuer: Seq<u8>,
    pub id: Seq<u8>,
    pub subject: Seq<u8>,
    pub not_before: u64,
    pub expires: u64,
    pub permissions: Seq<PermissionView>,
    pub limits: CertificateLimits,
}

impl View for Claims {
    type V = ClaimsView;

    open spec fn view(&self) -> ClaimsView {
        ClaimsView {
            realm: self.realm@,
            issuer: self.issuer@,
            id: self.id@,
            subject: self.subject@,
            not_before: self.not_before,
            expires: self.expires,
            permissions: permission_views(self.permissions@),
            limits: self.limits,
        }
    }
}

/// Claims in bytes.
pub open spec fn claims_bytes(c: ClaimsView) -> Seq<u8> {
    array_head(9) + (uint_item(1) + (bytes_item(c.realm) + (bytes_item(c.issuer) + (bytes_item(c.id)
        + (bytes_item(c.subject) + (uint_item(c.not_before) + (uint_item(c.expires) + (array_head(
        c.permissions.len() as u64,
    ) + (put_all(c.permissions, permission_put()) + limits_bytes(c.limits))))))))))
}

pub open spec fn limits_bytes(l: CertificateLimits) -> Seq<u8> {
    array_head(2) + (uint_item(l.max_payload) + uint_item(l.max_subscriptions))
}

/// Every permission grants something, and they stand in the order of their topics, none twice.
pub open spec fn permissions_ordered(ps: Seq<PermissionView>) -> bool {
    &&& forall|i: int| 0 <= i < ps.len() ==> (#[trigger] ps[i]).publish || ps[i].subscribe
    &&& forall|i: int, j: int|
        0 <= i < j < ps.len() ==> text_less((#[trigger] ps[i]).topic, (#[trigger] ps[j]).topic)
}

/// The rules for claims: a span of time that is not empty, and orderly permissions.
pub open spec fn claims_check(c: ClaimsView) -> Result<(), Error> {
    if c.not_before >= c.expires || c.permissions.len() > MAX_PERMISSIONS {
        Err(Error::Protocol("certificate claims"))
    } else if !permissions_ordered(c.permissions) {
        Err(Error::Protocol("permissions must be unique and sorted"))
    } else {
        Ok(())
    }
}

/// The claims that `b` holds.
pub open spec fn claims_of(b: Seq<u8>) -> Result<ClaimsView, Error> {
    match take_array(b, 9) { Err(e) => Err(e), Ok(s) =>
    match take_version(s, 1) { Err(e) => Err(e), Ok(s) =>
    match take_fixed(s, 16) { Err(e) => Err(e), Ok((realm, s)) =>
    match take_endpoint(s) { Err(e) => Err(e), Ok((issuer, s)) =>
    match take_fixed(s, 16) { Err(e) => Err(e), Ok((id, s)) =>
    match take_endpoint(s) { Err(e) => Err(e), Ok((subject, s)) =>
    match take_u(s) { Err(e) => Err(e), Ok((not_before, s)) =>
    match take_u(s) { Err(e) => Err(e), Ok((expires, s)) =>
    match take_list(s, MAX_PERMISSIONS as nat) { Err(e) => Err(e), Ok((count, s)) =>
    match take_all(s, count, permission_take()) { Err(e) => Err(e), Ok((permissions, s)) =>
    match take_array(s, 2) { Err(e) => Err(e), Ok(s) =>
    match take_u(s) { Err(e) => Err(e), Ok((max_payload, s)) =>
    match take_u(s) { Err(e) => Err(e), Ok((max_subscriptions, s)) =>
    match take_end(s) { Err(e) => Err(e), Ok(()) => {
        let limits = CertificateLimits { max_payload, max_subscriptions };
        let c = ClaimsView {
            realm, issuer, id, subject, not_before, expires, permissions, limits,
        };
        match claims_check(c) { Err(e) => Err(e), Ok(()) =>
        match canonical_check(b, claims_bytes(c)) {
            Err(e) => Err(e),
            Ok(()) => Ok(c),
        } }
    } } } } } } } } } } } } } } }
}

/// Claims whose fields have the lengths and forms that their types give them.
pub open spec fn claims_formed(c: ClaimsView) -> bool {
    &&& c.realm.len() == 16
    &&& c.issuer.len() == 32 && is_public_key(c.issuer)
    &&& c.id.len() == 16
    &&& c.subject.len() == 32 && is_public_key(c.subject)
    &&& forall|i: int| 0 <= i < c.permissions.len() ==> valid_topic((#[trigger] c.permissions[i]).topic)
}

proof fn lemma_take_permission(p: PermissionView, rest: Seq<u8>)
    requires
        valid_topic(p.topic),
        p.publish || p.subscribe,
    ensures
        take_permission(permission_bytes(p) + rest) == Ok::<(PermissionView, Seq<u8>), Error>(
            (p, rest),
        ),
{
    broadcast use {group_read_back, group_fields_back, lemma_concat_assoc};

}

/// Claims that keep the rules are read as they were written.
pub proof fn law_claims_round_trip(c: ClaimsView)
    requires
        claims_formed(c),
        claims_check(c) is Ok,
    ensures
        claims_of(claims_bytes(c)) == Ok::<ClaimsView, Error>(c),
{
    let put = permission_put();
    let take = permission_take();
    assert forall|i: int, s: Seq<u8>| 0 <= i < c.permissions.len() implies #[trigger] take(
        put(c.permissions[i]) + s,
    ) == Ok::<(PermissionView, Seq<u8>), Error>((c.permissions[i], s)) by {
        lemma_take_permission(c.permissions[i], s);
    }
    let last = uint_item(c.limits.max_subscriptions);
    let limits = limits_bytes(c.limits);
    let count = c.permissions.len() as u64;
    let s8 = put_all(c.permissions, put) + limits;
    let s7 = array_head(count) + s8;
    let s6 = uint_item(c.expires) + s7;
    let s5 = uint_item(c.not_before) + s6;
    let s4 = bytes_item(c.subject) + s5;
    let s3 = bytes_item(c.id) + s4;
    let s2 = bytes_item(c.issuer) + s3;
    let s1 = bytes_item(c.realm) + s2;
    lemma_take_array(9, 9, uint_item(1) + s1);
    lemma_take_version(1, s1);
    lemma_take_fixed(c.realm, 16, s2);
    lemma_take_endpoint(c.issuer, s3);
    lemma_take_fixed(c.id, 16, s4);
    lemma_take_endpoint(c.subject, s5);
    lemma_take_u(c.not_before, s6);
    lemma_take_u(c.expires, s7);
    lemma_take_list(count, MAX_PERMISSIONS as nat, s8);
    lemma_take_all(c.permissions, limits, put, take);
    lemma_take_array(2, 2, uint_item(c.limits.max_payload) + last);
    lemma_take_u(c.limits.max_payload, last);
    lemma_take_last_u(c.limits.max_subscriptions);
}

/// Appends a list of permissions to a record.
pub fn write_permissions(w: &mut Writer, permissions: &Vec<Permission>)
    ensures
        final(w)@ == old(w)@ + (array_head(permissions@.len() as u64) + put_all(
            permission_views(permissions@),
            permission_put(),
        )),
        forall|rest: Seq<u8>| #[trigger]
            (final(w)@ + rest) == old(w)@ + (array_head(permissions@.len() as u64) + (put_all(
                permission_views(permissions@),
                permission_put(),
            ) + rest)),
        forall|i: int|
            0 <= i < permissions@.len() ==> valid_topic(
                (#[trigger] permission_views(permissions@)[i]).topic,
            ),
{
    let ghost start = w@;
    let ghost views = permission_views(permissions@);
    let ghost put = permission_put();
    let ghost head = array_head(views.len() as u64);
    w.array(permissions.len());
    let mut i: usize = 0;
    proof {
        assert(views.take(0) =~= Seq::<PermissionView>::empty());
        lemma_nothing_after(head);
    }
    while i < permissions.len()
        invariant
            i <= permissions.len(),
            views == permission_views(permissions@),
            put == permission_put(),
            w@ == start + (head + put_all(views.take(i as int), put)),
            forall|j: int| 0 <= j < i ==> valid_topic((#[trigger] views[j]).topic),
        decreases permissions.len() - i,
    {
        let p = &permissions[i];
        w.array(2);
        w.text(p.topic.as_str());
        let mask: u64 = if p.publish && p.subscribe {
            3
        } else if p.subscribe {
            2
        } else if p.publish {
            1
        } else {
            0
        };
        w.u(mask);
        proof {
            use_type_invariant(&p.topic);
            let next = views.take(i + 1);
            let had = put_all(views.take(i as int), put);
            assert(next.drop_last() =~= views.take(i as int));
            assert(next.last() == p@);
            lemma_concat_assoc(start, head + had, permission_bytes(p@));
            lemma_concat_assoc(head, had, permission_bytes(p@));
        }
        i = i + 1;
    }
    proof {
        assert(views.take(i as int) =~= views);
        let list = put_all(views, put);
        assert forall|rest: Seq<u8>| #[trigger] (w@ + rest) == start + (head + (list + rest)) by {
            lemma_concat_assoc(start, head + list, rest);
            lemma_concat_assoc(head, list, rest);
        }
    }
}

impl Claims {
    pub fn encode(&self) -> (b: Vec<u8>)
        ensures
            b@ == claims_bytes(self@),
            forall|i: int|
                0 <= i < self.permissions@.len() ==> valid_topic(
                    (#[trigger] self@.permissions[i]).topic,
                ),
    {
        let mut w = Writer::new();
        w.array(9);
        w.u(1);
        w.bytes(&self.realm);
        w.bytes(self.issuer.as_bytes());
        w.bytes(&self.id);
        w.bytes(self.subject.as_bytes());
        w.u(self.not_before);
        w.u(self.expires);
        write_permissions(&mut w, &self.permissions);
        w.array(2);
        w.u(self.limits.max_payload);
        w.u(self.limits.max_subscriptions);
        w.finish()
    }

    fn decode_permissions(r: &mut Reader, count: usize) -> (v: Result<Vec<Permission>, Error>)
        requires
            old(r).wf(),
        ensures
            final(r).wf(),
            match take_all(old(r)@, count as nat, permission_take()) {
                Ok((ps, rest)) => v is Ok && permission_views(v->Ok_0@) == ps && final(r)@ == rest,
                Err(e) => v is Err && v->Err_0 == e,
            },
    {
        let ghost start = r@;
        let ghost take = permission_take();
        let mut permissions: Vec<Permission> = Vec::new();
        let mut i: usize = 0;
        assert(permission_views(permissions@) =~= Seq::<PermissionView>::empty());
        while i < count
            invariant
                i <= count,
                r.wf(),
                take == permission_take(),
                start == old(r)@,
                take_all(start, i as nat, take) == Ok::<(Seq<PermissionView>, Seq<u8>), Error>(
                    (permission_views(permissions@), r@),
                ),
            decreases count - i,
        {
            proof {
                if take_permission(r@) is Err {
                    assert(take_all(start, (i + 1) as nat, take) is Err);
                    lemma_take_all_error(start, (i + 1) as nat, count as nat, take);
                }
            }
            r.array(2)?;
            let topic = read_topic(r)?;
            let mask: u64 = r.u()?;
            if mask < 1 || mask > 3 {
                return Err(Error::Protocol("permission mask"));
            }
            let ghost had = permissions@;
            permissions.push(Permission { topic, publish: mask != 2, subscribe: mask != 1 });
            proof {
                assert(permission_views(permissions@) =~= permission_views(had).push(
                    permissions@.last()@,
                ));
            }
            i = i + 1;
        }
        Ok(permissions)
    }

    pub fn decode(b: &[u8]) -> (r: Result<Claims, Error>)
        ensures
            match claims_of(b@) {
                Ok(c) => r is Ok && r->Ok_0@ == c && r->Ok_0.issuer.wf() && r->Ok_0.subject.wf(),
                Err(e) => r is Err && r->Err_0 == e,
            },
    {
        let mut r = Reader::new(b);
        r.array(9)?;
        read_version(&mut r, 1)?;
        let realm: RealmId = r.fixed()?;
        let issuer = read_endpoint(&mut r)?;
        let id: Id = r.fixed()?;
        let subject = read_endpoint(&mut r)?;
        let not_before: u64 = r.u()?;
        let expires: u64 = r.u()?;
        let count: usize = r.list(MAX_PERMISSIONS)?;
        let permissions = Claims::decode_permissions(&mut r, count)?;
        r.array(2)?;
        let max_payload: u64 = r.u()?;
        let max_subscriptions: u64 = r.u()?;
        let limits = CertificateLimits { max_payload, max_subscriptions };
        r.end()?;
        let c = Claims { realm, issuer, id, subject, not_before, expires, permissions, limits };
        c.validate()?;
        canonical(b, c.encode().as_slice())?;
        Ok(c)
    }

    pub fn validate(&self) -> (r: Result<(), Error>)
        ensures
            r == claims_check(self@),
    {
        if self.not_before >= self.expires || self.permissions.len() > MAX_PERMISSIONS {
            return Err(Error::Protocol("certificate claims"));
        }
        let ghost views = self@.permissions;
        let mut i: usize = 0;
        while i < self.permissions.len()
            invariant
                i <= self.permissions.len(),
                views == permission_views(self.permissions@),
                self.not_before < self.expires,
                self.permissions.len() <= MAX_PERMISSIONS,
                permissions_ordered(views.take(i as int)),
            decreases self.permissions.len() - i,
        {
            let p = &self.permissions[i];
            assert(views[i as int] == p@);
            if !p.publish && !p.subscribe {
                return Err(Error::Protocol("permissions must be unique and sorted"));
            }
            if i > 0 {
                let previous = &self.permissions[i - 1];
                assert(views[i - 1] == previous@);
                if !previous.topic.before(&p.topic) {
                    return Err(Error::Protocol("permissions must be unique and sorted"));
                }
            }
            proof {
                let next = views.take(i + 1);
                let most = views.take(i as int);
                assert forall|j: int, k: int| 0 <= j < k < next.len() implies text_less(
                    (#[trigger] next[j]).topic,
                    (#[trigger] next[k]).topic,
                ) by {
                    assert(next[j] == views[j]);
                    assert(next[k] == views[k]);
                    if k < i {
                        assert(most[j] == views[j]);
                        assert(most[k] == views[k]);
                    } else if j < i - 1 {
                        assert(most[j] == views[j]);
                        assert(most[i - 1] == views[i - 1]);
                        <Topic as Key>::less_transitive(
                            views[j].topic,
                            views[i - 1].topic,
                            views[i as int].topic,
                        );
                    }
                }
                assert forall|j: int| 0 <= j < next.len() implies (#[trigger] next[j]).publish
                    || next[j].subscribe by {
                    if j < i {
                        assert(most[j] == next[j]);
                    }
                }
            }
            i = i + 1;
        }
        assert(views.take(i as int) =~= views);
        Ok(())
    }
}

// Certificates

/// The claims of the certificate that `b` holds, whoever signed it.
pub open spec fn certificate_of(b: Seq<u8>) -> Result<ClaimsView, Error> {
    match container_parts(b, MAX_CERT as nat) {
        Err(e) => Err(e),
        Ok((payload, _)) => claims_of(payload),
    }
}

/// Signed claims and the container that holds them, as a value.
#[verifier::ext_equal]
pub struct CertificateView {
    pub claims: ClaimsView,
    pub bytes: Seq<u8>,
}

/// Signed claims.
#[derive(Debug)]
pub struct Certificate {
    claims: Claims,
    bytes: Vec<u8>,
}

impl View for Certificate {
    type V = CertificateView;

    closed spec fn view(&self) -> CertificateView {
        CertificateView { claims: self.claims@, bytes: self.bytes@ }
    }
}

/// Whether the claims are those that the bytes hold.
pub open spec fn certificate_consistent(c: CertificateView) -> bool {
    &&& certificate_of(c.bytes) == Ok::<ClaimsView, Error>(c.claims)
    &&& c.bytes.len() <= MAX_CERT
}

impl Certificate {
    /// The claims are those of the bytes.
    #[verifier::type_invariant]
    pub open spec fn consistent(self) -> bool {
        certificate_consistent(self@)
    }

    /// Parses the bounded wire profile. Trust is established by `Trust::verify`, not parsing.
    pub fn from_bytes(b: &[u8]) -> (r: Result<Certificate, Error>)
        ensures
            match certificate_of(b@) {
                Ok(claims) => r is Ok && r->Ok_0@ == (CertificateView { claims, bytes: b@ }),
                Err(e) => r is Err && r->Err_0 == e,
            },
    {
        let (payload, _) = parse_cose(b, MAX_CERT)?;
        let claims = Claims::decode(payload)?;
        Ok(Certificate { claims, bytes: slice_to_vec(b) })
    }

    pub fn as_bytes(&self) -> (b: &[u8])
        ensures
            b@ == self@.bytes,
    {
        self.bytes.as_slice()
    }

    /// What keeping this certificate costs: the encoded container, the parsed claims, and the
    /// allocations of the permissions.
    pub fn charge(&self) -> (n: usize)
        ensures
            n == self@.bytes.len() * 4 + 16384,
    {
        proof {
            use_type_invariant(self);
        }
        self.bytes.len() * 4 + 16384
    }

    pub fn endpoint_id(&self) -> (id: EndpointId)
        ensures
            id@ == self@.claims.subject,
    {
        self.claims.subject
    }

    pub fn id(&self) -> (id: Id)
        ensures
            id@ == self@.claims.id,
    {
        self.claims.id
    }

    pub fn expires_at(&self) -> (t: u64)
        ensures
            t == self@.claims.expires,
    {
        self.claims.expires
    }

    pub fn permissions(&self) -> (ps: &[Permission])
        ensures
            permission_views(ps@) == self@.claims.permissions,
    {
        self.claims.permissions.as_slice()
    }

    pub fn limits(&self) -> (l: CertificateLimits)
        ensures
            l == self@.claims.limits,
    {
        self.claims.limits
    }

    /// Whether the holder may publish to `topic`, or else subscribe to it.
    pub fn allows(&self, topic: &Topic, publish: bool) -> (r: bool)
        ensures
            r == claims_allow(self@.claims, topic@, publish),
    {
        let ps = &self.claims.permissions;
        let mut i: usize = 0;
        while i < ps.len()
            invariant
                i <= ps.len(),
                self@.claims.permissions == permission_views(ps@),
                forall|j: int|
                    0 <= j < i ==> !((#[trigger] self@.claims.permissions[j]).topic == topic@ && (
                    if publish {
                        self@.claims.permissions[j].publish
                    } else {
                        self@.claims.permissions[j].subscribe
                    })),
            decreases ps.len() - i,
        {
            let p = &ps[i];
            assert(self@.claims.permissions[i as int] == p@);
            if p.topic.same(topic) && (if publish { p.publish } else { p.subscribe }) {
                return true;
            }
            i = i + 1;
        }
        false
    }
}

/// Whether the claims let their subject publish to `topic`, or else subscribe to it.
pub open spec fn claims_allow(c: ClaimsView, topic: Seq<char>, publish: bool) -> bool {
    exists|i: int|
        0 <= i < c.permissions.len() && (#[trigger] c.permissions[i]).topic == topic && (
        if publish {
            c.permissions[i].publish
        } else {
            c.permissions[i].subscribe
        })
}

impl Clone for Certificate {
    fn clone(&self) -> (c: Self)
        ensures
            c@ == self@,
    {
        proof {
            use_type_invariant(self);
        }
        let mut permissions: Vec<Permission> = Vec::new();
        let mut i: usize = 0;
        while i < self.claims.permissions.len()
            invariant
                i <= self.claims.permissions@.len(),
                permissions@.len() == i,
                forall|j: int| 0 <= j < i ==> (#[trigger] permissions@[j])@ == self.claims.permissions@[j]@,
            decreases self.claims.permissions.len() - i,
        {
            permissions.push(self.claims.permissions[i].clone());
            i = i + 1;
        }
        let claims = Claims {
            realm: self.claims.realm,
            issuer: self.claims.issuer,
            id: self.claims.id,
            subject: self.claims.subject,
            not_before: self.claims.not_before,
            expires: self.claims.expires,
            permissions,
            limits: self.claims.limits,
        };
        assert(claims@.permissions =~= self.claims@.permissions);
        Certificate { claims, bytes: slice_to_vec(self.bytes.as_slice()) }
    }
}

// The authority

/// The private key of a realm and the realm's identifier, as a value.
#[verifier::ext_equal]
pub struct AuthorityView {
    pub secret: Seq<u8>,
    pub realm: Seq<u8>,
}

/// Offline authority. Its signing key is never used as a messaging or enrollment transport key
/// automatically.
pub struct Authority {
    key: Secret,
    realm: RealmId,
}

impl View for Authority {
    type V = AuthorityView;

    closed spec fn view(&self) -> AuthorityView {
        AuthorityView { secret: self.key@, realm: self.realm@ }
    }
}

impl Default for Authority {
    fn default() -> Self {
        Authority::generate()
    }
}

/// Permissions that one certificate can grant together: each grants something, no two are on one
/// topic.
pub open spec fn grantable(ps: Seq<PermissionView>) -> bool {
    &&& forall|i: int| 0 <= i < ps.len() ==> (#[trigger] ps[i]).publish || ps[i].subscribe
    &&& forall|i: int, j: int|
        0 <= i < j < ps.len() ==> (#[trigger] ps[i]).topic != (#[trigger] ps[j]).topic
}

/// Whether `q` lists what `ps` lists, in the order of the topics.
pub open spec fn arranged(ps: Seq<PermissionView>, q: Seq<PermissionView>) -> bool {
    &&& q.len() == ps.len()
    &&& q.to_set() == ps.to_set()
    &&& permissions_ordered(q)
}

/// The claims of a certificate that an authority issues.
pub open spec fn issued_claims(
    a: AuthorityView,
    id: Seq<u8>,
    subject: Seq<u8>,
    not_before: u64,
    expires: u64,
    permissions: Seq<PermissionView>,
    limits: CertificateLimits,
) -> ClaimsView {
    ClaimsView {
        realm: a.realm,
        issuer: public_key(a.secret),
        id,
        subject,
        not_before,
        expires,
        permissions,
        limits,
    }
}

/// What an authority signs into a container for a purpose.
pub open spec fn sealed(secret: Seq<u8>, payload: Seq<u8>, context: Seq<u8>) -> Seq<u8> {
    container(payload, signature(secret, signed_bytes(payload, context)))
}

/// What became of an attempt to make a certificate.
pub open spec fn certificate_outcome(r: Result<Certificate, Error>) -> Result<
    CertificateView,
    Error,
> {
    match r {
        Ok(c) => Ok(c@),
        Err(e) => Err(e),
    }
}

/// The permissions in the order of their topics.
pub open spec fn arrangement(ps: Seq<PermissionView>) -> Seq<PermissionView> {
    choose|q: Seq<PermissionView>| arranged(ps, q)
}

/// What comes of an authority's issuing a certificate: the permissions in the order of their
/// topics, signed, unless the claims break a rule or come out too long.
pub open spec fn issued(
    a: AuthorityView,
    id: Seq<u8>,
    subject: Seq<u8>,
    permissions: Seq<PermissionView>,
    not_before: u64,
    expires: u64,
    limits: CertificateLimits,
) -> Result<CertificateView, Error> {
    let claims = issued_claims(
        a,
        id,
        subject,
        not_before,
        expires,
        arrangement(permissions),
        limits,
    );
    let bytes = sealed(a.secret, claims_bytes(claims), certificate_context());
    if not_before >= expires || permissions.len() > MAX_PERMISSIONS {
        Err(Error::Protocol("certificate claims"))
    } else if !grantable(permissions) {
        Err(Error::Protocol("permissions must be unique and sorted"))
    } else if bytes.len() > MAX_CERT {
        Err(Error::MessageTooLarge)
    } else {
        Ok(CertificateView { claims, bytes })
    }
}

/// Whether everyone who trusts the issuer of a certificate accepts it from its subject, while it is
/// in force and not revoked.
pub open spec fn verifies_in_time(c: CertificateView) -> bool {
    forall|t: TrustView, now: u64|
        t.realm == c.claims.realm && t.root == c.claims.issuer && !t.revoked.contains(c.claims.id)
            && trust_fresh(t, now) && in_force(t, c.claims, now) ==> #[trigger] trust_verify(
            t,
            c,
            c.claims.subject,
            now,
        ) == Ok::<(), Error>(())
}

/// Permissions paired with their topics.
spec fn by_topic(q: Seq<PermissionView>) -> Seq<(Seq<char>, PermissionView)> {
    Seq::new(q.len(), |i: int| (q[i].topic, q[i]))
}

/// There is only one order of the topics.
pub proof fn lemma_arrangement_unique(
    ps: Seq<PermissionView>,
    q: Seq<PermissionView>,
    r: Seq<PermissionView>,
)
    requires
        arranged(ps, q),
        arranged(ps, r),
    ensures
        q == r,
{
    let a = by_topic(q);
    let b = by_topic(r);
    assert(increasing::<Topic, PermissionView>(a));
    assert(increasing::<Topic, PermissionView>(b));
    lemma_same_pairs(q, r);
    lemma_same_pairs(r, q);
    assert(pairs_map(a) =~= pairs_map(b));
    lemma_pairs_unique::<Topic, PermissionView>(a, b);
    assert forall|i: int| 0 <= i < q.len() implies q[i] == r[i] by {
        assert(a[i] == b[i]);
    }
    assert(q =~= r);
}

proof fn lemma_same_pairs(q: Seq<PermissionView>, r: Seq<PermissionView>)
    requires
        permissions_ordered(q),
        permissions_ordered(r),
        q.to_set() == r.to_set(),
    ensures
        forall|k: Seq<char>| #[trigger]
            pairs_map(by_topic(q)).dom().contains(k) ==> {
                &&& pairs_map(by_topic(r)).dom().contains(k)
                &&& pairs_map(by_topic(q))[k] == pairs_map(by_topic(r))[k]
            },
{
    let a = by_topic(q);
    let b = by_topic(r);
    assert(increasing::<Topic, PermissionView>(a));
    assert(increasing::<Topic, PermissionView>(b));
    assert forall|k: Seq<char>| #[trigger] pairs_map(a).dom().contains(k) implies pairs_map(
        b,
    ).dom().contains(k) && pairs_map(a)[k] == pairs_map(b)[k] by {
        let i = choose|i: int| 0 <= i < a.len() && (#[trigger] a[i]).0 == k;
        lemma_pairs_map_index::<Topic, PermissionView>(a, i);
        assert(q.to_set().contains(q[i]));
        let j = choose|j: int| 0 <= j < r.len() && r[j] == q[i];
        assert(b[j] == a[i]);
        lemma_pairs_map_index::<Topic, PermissionView>(b, j);
    }
}

/// A rearrangement in which no topic comes before an earlier one is the arrangement, if there is
/// one.
proof fn lemma_arranged(ps: Seq<PermissionView>, q: Seq<PermissionView>)
    requires
        q.len() == ps.len(),
        q.to_set() == ps.to_set(),
        forall|i: int, j: int|
            0 <= i < j < q.len() ==> !text_less((#[trigger] q[j]).topic, (#[trigger] q[i]).topic),
    ensures
        permissions_ordered(q) == grantable(ps),
{
    if permissions_ordered(q) {
        assert forall|i: int, j: int| 0 <= i < j < q.len() implies q[i] != q[j] by {
            <Topic as Key>::less_irreflexive(q[i].topic);
        }
        assert(q.no_duplicates());
        q.unique_seq_to_set();
        ps.lemma_no_dup_set_cardinality();
        assert forall|i: int| 0 <= i < ps.len() implies (#[trigger] ps[i]).publish
            || ps[i].subscribe by {
            assert(ps.to_set().contains(ps[i]));
            let k = choose|k: int| 0 <= k < q.len() && q[k] == ps[i];
        }
        assert forall|i: int, j: int| 0 <= i < j < ps.len() implies (#[trigger] ps[i]).topic != (
        #[trigger] ps[j]).topic by {
            assert(ps.to_set().contains(ps[i]));
            assert(ps.to_set().contains(ps[j]));
            let k = choose|k: int| 0 <= k < q.len() && q[k] == ps[i];
            let l = choose|l: int| 0 <= l < q.len() && q[l] == ps[j];
            <Topic as Key>::less_irreflexive(ps[i].topic);
            if k < l {
                assert(text_less(q[k].topic, q[l].topic));
            } else if l < k {
                assert(text_less(q[l].topic, q[k].topic));
            }
        }
    }
    if grantable(ps) {
        assert(ps.no_duplicates());
        ps.unique_seq_to_set();
        q.lemma_no_dup_set_cardinality();
        assert forall|i: int| 0 <= i < q.len() implies (#[trigger] q[i]).publish || q[i].subscribe
            by {
            assert(q.to_set().contains(q[i]));
            let k = choose|k: int| 0 <= k < ps.len() && ps[k] == q[i];
        }
        assert forall|i: int, j: int| 0 <= i < j < q.len() implies text_less(
            (#[trigger] q[i]).topic,
            (#[trigger] q[j]).topic,
        ) by {
            <Topic as Key>::less_total(q[i].topic, q[j].topic);
            assert(q.to_set().contains(q[i]));
            assert(q.to_set().contains(q[j]));
            let k = choose|k: int| 0 <= k < ps.len() && ps[k] == q[i];
            let l = choose|l: int| 0 <= l < ps.len() && ps[l] == q[j];
            if k < l {
                assert(ps[k].topic != ps[l].topic);
            } else if l < k {
                assert(ps[l].topic != ps[k].topic);
            }
        }
    }
}

/// Puts permissions in the order of their topics.
fn sort_permissions(permissions: Vec<Permission>) -> (sorted: Vec<Permission>)
    ensures
        sorted@.len() == permissions@.len(),
        permission_views(sorted@).to_set() == permission_views(permissions@).to_set(),
        permissions_ordered(permission_views(sorted@)) == grantable(permission_views(permissions@)),
{
    let ghost all = permission_views(permissions@);
    let mut rest = permissions;
    let mut sorted: Vec<Permission> = Vec::new();
    proof {
        assert(permission_views(sorted@).to_set() =~= Set::<PermissionView>::empty());
        assert(all.to_set().union(Set::<PermissionView>::empty()) =~= all.to_set());
    }
    while rest.len() > 0
        invariant
            rest@.len() + sorted@.len() == all.len(),
            permission_views(rest@).to_set().union(permission_views(sorted@).to_set())
                == all.to_set(),
            forall|i: int, j: int|
                0 <= i < j < sorted@.len() ==> !text_less(
                    (#[trigger] sorted@[j]).topic@,
                    (#[trigger] sorted@[i]).topic@,
                ),
        decreases rest.len(),
    {
        let ghost rest_before = rest@;
        let ghost before = sorted@;
        let p = rest.pop().unwrap();
        let mut at: usize = 0;
        while at < sorted.len() && sorted[at].topic.before(&p.topic)
            invariant
                at <= sorted.len(),
                sorted@ == before,
                forall|i: int| 0 <= i < at ==> text_less((#[trigger] sorted@[i]).topic@, p.topic@),
            decreases sorted.len() - at,
        {
            at = at + 1;
        }
        sorted.insert(at, p);
        proof {
            lemma_insert_keeps_order(before, at as int, sorted@[at as int]);
            assert(sorted@ =~= before.insert(at as int, sorted@[at as int]));
            lemma_set_of_insert(before, at as int, sorted@[at as int]);
            lemma_set_of_pop(rest_before);
            assert(rest@ =~= rest_before.drop_last());
            assert(permission_views(rest@).to_set().union(permission_views(sorted@).to_set())
                =~= permission_views(rest_before).to_set().union(
                permission_views(before).to_set(),
            ));
        }
    }
    proof {
        assert(permission_views(rest@).to_set() =~= Set::<PermissionView>::empty());
        assert(permission_views(sorted@).to_set() =~= all.to_set());
        let q = permission_views(sorted@);
        assert forall|i: int, j: int| 0 <= i < j < q.len() implies !text_less(
            (#[trigger] q[j]).topic,
            (#[trigger] q[i]).topic,
        ) by {
            assert(q[i] == sorted@[i]@);
            assert(q[j] == sorted@[j]@);
        }
        lemma_arranged(all, q);
    }
    sorted
}

proof fn lemma_insert_keeps_order(s: Seq<Permission>, at: int, p: Permission)
    requires
        0 <= at <= s.len(),
        forall|i: int, j: int|
            0 <= i < j < s.len() ==> !text_less(
                (#[trigger] s[j]).topic@,
                (#[trigger] s[i]).topic@,
            ),
        forall|i: int| 0 <= i < at ==> text_less((#[trigger] s[i]).topic@, p.topic@),
        at < s.len() ==> !text_less(s[at].topic@, p.topic@),
    ensures
        forall|i: int, j: int|
            0 <= i < j < s.insert(at, p).len() ==> !text_less(
                (#[trigger] s.insert(at, p)[j]).topic@,
                (#[trigger] s.insert(at, p)[i]).topic@,
            ),
{
    let t = s.insert(at, p);
    assert forall|i: int, j: int| 0 <= i < j < t.len() implies !text_less(
        (#[trigger] t[j]).topic@,
        (#[trigger] t[i]).topic@,
    ) by {
        let i0 = if i < at { i } else { i - 1 };
        let j0 = if j < at { j } else { j - 1 };
        if i != at && j != at {
            assert(t[i] == s[i0]);
            assert(t[j] == s[j0]);
        } else if i == at {
            assert(t[j] == s[j0]);
            if text_less(s[j0].topic@, p.topic@) {
                if at < j0 {
                    <Topic as Key>::less_total(s[at].topic@, s[j0].topic@);
                    assert(!text_less(s[j0].topic@, s[at].topic@));
                    if text_less(s[at].topic@, s[j0].topic@) {
                        <Topic as Key>::less_transitive(
                            s[at].topic@,
                            s[j0].topic@,
                            p.topic@,
                        );
                    }
                }
            }
        } else {
            assert(t[i] == s[i0]);
            if text_less(p.topic@, s[i0].topic@) {
                <Topic as Key>::less_transitive(p.topic@, s[i0].topic@, p.topic@);
                <Topic as Key>::less_irreflexive(p.topic@);
            }
        }
    }
}

proof fn lemma_set_of_insert(s: Seq<Permission>, at: int, p: Permission)
    requires
        0 <= at <= s.len(),
    ensures
        permission_views(s.insert(at, p)).to_set() == permission_views(s).to_set().insert(p@),
{
    let a = permission_views(s.insert(at, p));
    let b = permission_views(s);
    assert forall|x: PermissionView| #[trigger] a.to_set().contains(x) == b.to_set().insert(
        p@,
    ).contains(x) by {
        if a.to_set().contains(x) {
            let i = choose|i: int| 0 <= i < a.len() && a[i] == x;
            let j = if i < at { i } else { i - 1 };
            if i != at {
                assert(b[j] == x);
            }
        }
        if b.to_set().contains(x) {
            let j = choose|j: int| 0 <= j < b.len() && b[j] == x;
            let i = if j < at { j } else { j + 1 };
            assert(a[i] == x);
        }
        if x == p@ {
            assert(a[at] == x);
        }
    }
    assert(a.to_set() =~= b.to_set().insert(p@));
}

proof fn lemma_set_of_pop(s: Seq<Permission>)
    requires
        s.len() > 0,
    ensures
        permission_views(s).to_set() == permission_views(s.drop_last()).to_set().insert(
            s.last()@,
        ),
{
    assert(s =~= s.drop_last().insert(s.len() - 1, s.last()));
    lemma_set_of_insert(s.drop_last(), s.len() - 1, s.last());
}

// Revocations

/// A signed list of revoked certificates, in bytes.
pub struct RevocationSnapshot {
    bytes: Vec<u8>,
}

impl View for RevocationSnapshot {
    type V = Seq<u8>;

    closed spec fn view(&self) -> Seq<u8> {
        self.bytes@
    }
}

impl Clone for RevocationSnapshot {
    fn clone(&self) -> (s: Self)
        ensures
            s@ == self@,
    {
        RevocationSnapshot { bytes: slice_to_vec(self.bytes.as_slice()) }
    }
}

impl RevocationSnapshot {
    /// Takes a container of the right form, whoever signed it.
    pub fn from_bytes(bytes: &[u8]) -> (r: Result<RevocationSnapshot, Error>)
        ensures
            match container_parts(bytes@, MAX_REVOCATION as nat) {
                Ok(_) => r is Ok && r->Ok_0@ == bytes@,
                Err(e) => r is Err && r->Err_0 == e,
            },
    {
        parse_cose(bytes, MAX_REVOCATION)?;
        Ok(RevocationSnapshot { bytes: slice_to_vec(bytes) })
    }

    pub fn as_bytes(&self) -> (b: &[u8])
        ensures
            b@ == self@,
    {
        self.bytes.as_slice()
    }
}

pub open spec fn id_put() -> Put<Seq<u8>> {
    |id: Seq<u8>| bytes_item(id)
}

pub open spec fn id_take() -> Take<Seq<u8>> {
    |s: Seq<u8>| take_fixed(s, 16)
}

/// A list of revoked certificates, to be signed.
pub open spec fn revocation_bytes(
    realm: Seq<u8>,
    version: u64,
    issued: u64,
    expires: u64,
    ids: Seq<Seq<u8>>,
) -> Seq<u8> {
    array_head(6) + (uint_item(1) + (bytes_item(realm) + (uint_item(version) + (uint_item(issued)
        + (uint_item(expires) + (array_head(ids.len() as u64) + put_all(ids, id_put())))))))
}

/// The views of a list of identifiers.
pub open spec fn id_views(ids: Seq<Id>) -> Seq<Seq<u8>> {
    Seq::new(ids.len(), |i: int| ids[i]@)
}

/// Whether `ids` lists the members of `set` in order, each once.
pub open spec fn lists_ids(ids: Seq<Seq<u8>>, set: Set<Seq<u8>>) -> bool {
    &&& forall|i: int, j: int| 0 <= i < j < ids.len() ==> bytes_less(#[trigger] ids[i], #[trigger] ids[j])
    &&& ids.to_set() == set
}

/// The keys of a set of identifiers, in order.
pub open spec fn set_keys(s: Seq<(Seq<u8>, ())>) -> Seq<Seq<u8>> {
    Seq::new(s.len(), |i: int| s[i].0)
}

/// Appends the identifiers of a set to a record, in order.
fn write_ids(w: &mut Writer, ids: &OrderedMap<Id, ()>)
    ensures
        final(w)@ == old(w)@ + (array_head(ids.pairs().len() as u64) + put_all(
            set_keys(ids.pairs()),
            id_put(),
        )),
{
    let ghost start = w@;
    let ghost keys = set_keys(ids.pairs());
    let ghost put = id_put();
    w.array(ids.len());
    let ghost head = array_head(keys.len() as u64);
    proof {
        assert(keys.take(0) =~= Seq::<Seq<u8>>::empty());
        lemma_nothing_after(head);
    }
    let mut i: usize = 0;
    while i < ids.len()
        invariant
            i <= ids.pairs().len(),
            keys == set_keys(ids.pairs()),
            put == id_put(),
            w@ == start + (head + put_all(keys.take(i as int), put)),
        decreases ids.pairs().len() - i,
    {
        w.bytes(ids.key_at(i));
        proof {
            let next = keys.take(i + 1);
            assert(next.drop_last() =~= keys.take(i as int));
            let had = put_all(keys.take(i as int), put);
            lemma_concat_assoc(start, head + had, bytes_item(keys[i as int]));
            lemma_concat_assoc(head, had, bytes_item(keys[i as int]));
        }
        i = i + 1;
    }
    assert(keys.take(i as int) =~= keys);
}

impl Authority {
    /// An authority with a key and a realm drawn at random.
    pub fn generate() -> Authority {
        Authority::from_parts(&random_secret(), random_id())
    }

    pub fn from_identity(identity: Identity, realm: RealmId) -> (a: Authority)
        ensures
            a@ == (AuthorityView { secret: identity@, realm: realm@ }),
    {
        Authority { key: identity.secret().copy(), realm }
    }

    /// Restores an authority from its private key and its realm.
    pub fn from_parts(secret: &[u8; 32], realm: RealmId) -> (a: Authority)
        ensures
            a@ == (AuthorityView { secret: secret@, realm: realm@ }),
    {
        Authority { key: Secret::from_bytes(secret), realm }
    }

    /// Exports the private key. The caller must keep these bytes confidential.
    pub fn secret_bytes(&self) -> (bytes: [u8; 32])
        ensures
            bytes@ == self@.secret,
    {
        self.key.to_bytes()
    }

    pub fn realm_id(&self) -> (realm: RealmId)
        ensures
            realm@ == self@.realm,
    {
        self.realm
    }

    pub fn public_key(&self) -> (id: EndpointId)
        ensures
            id@ == public_key(self@.secret),
            id.wf(),
    {
        self.key.public()
    }

    /// Trust in this authority, and in no other.
    pub fn trust(&self) -> (t: Trust)
        ensures
            t@ == new_trust(self@.realm, public_key(self@.secret)),
    {
        Trust::new(self.realm, self.public_key())
    }

    /// Issues a certificate with an identifier drawn at random.
    pub fn issue(
        &self,
        subject: EndpointId,
        permissions: Vec<Permission>,
        not_before: u64,
        expires_at: u64,
        limits: CertificateLimits,
    ) -> (r: Result<Certificate, Error>)
        ensures
            exists|id: Seq<u8>|
                id.len() == 16 && certificate_outcome(r) == #[trigger] issued(
                    self@,
                    id,
                    subject@,
                    permission_views(permissions@),
                    not_before,
                    expires_at,
                    limits,
                ),
            r matches Ok(c) ==> proper_commitment(
                signature(self@.secret, signed_bytes(claims_bytes(c@.claims), certificate_context())),
            ) ==> verifies_in_time(c@),
    {
        let id = random_id();
        let r = self.issue_as(id, subject, permissions, not_before, expires_at, limits);
        assert(certificate_outcome(r) == issued(
            self@,
            id@,
            subject@,
            permission_views(permissions@),
            not_before,
            expires_at,
            limits,
        ));
        r
    }

    /// Issues a certificate with the given identifier.
    pub fn issue_as(
        &self,
        id: Id,
        subject: EndpointId,
        permissions: Vec<Permission>,
        not_before: u64,
        expires_at: u64,
        limits: CertificateLimits,
    ) -> (r: Result<Certificate, Error>)
        ensures
            certificate_outcome(r) == issued(
                self@,
                id@,
                subject@,
                permission_views(permissions@),
                not_before,
                expires_at,
                limits,
            ),
            r matches Ok(c) ==> proper_commitment(
                signature(self@.secret, signed_bytes(claims_bytes(c@.claims), certificate_context())),
            ) ==> verifies_in_time(c@),
    {
        let ghost asked = permission_views(permissions@);
        let permissions = sort_permissions(permissions);
        let c = Claims {
            realm: self.realm,
            issuer: self.public_key(),
            id,
            subject,
            not_before,
            expires: expires_at,
            permissions,
            limits,
        };
        c.validate()?;
        let context = "iroh-mq/certificate/v1".as_bytes();
        let payload = c.encode();
        let bytes = sign_cose(payload.as_slice(), &self.key, context);
        proof {
            use_type_invariant(&subject);
            law_claims_round_trip(c@);
            assert(arranged(asked, c@.permissions));
            lemma_arrangement_unique(asked, c@.permissions, arrangement(asked));
            let made = signature(self@.secret, signed_bytes(payload@, certificate_context()));
            if bytes@.len() <= MAX_CERT {
                lemma_container_parts(payload@, made, MAX_CERT as nat);
            }
        }
        Certificate::from_bytes(bytes.as_slice())
    }
}

// Trust

/// What an endpoint takes on trust, as a value.
#[verifier::ext_equal]
pub struct TrustView {
    pub realm: Seq<u8>,
    pub root: Seq<u8>,
    pub revoked: Set<Seq<u8>>,
    pub version: u64,
    pub freshness: Option<u64>,
    pub clock_skew_secs: u64,
}

/// What an endpoint takes on trust: the authority of its realm, and the certificates that it must
/// no longer accept.
pub struct Trust {
    realm: RealmId,
    root: EndpointId,
    revoked: OrderedMap<Id, ()>,
    version: u64,
    freshness: Option<u64>,
    /// Allowed certificate clock skew, in seconds. Default: zero.
    pub clock_skew_secs: u64,
}

impl View for Trust {
    type V = TrustView;

    closed spec fn view(&self) -> TrustView {
        TrustView {
            realm: self.realm@,
            root: self.root@,
            revoked: self.revoked@.dom(),
            version: self.version,
            freshness: self.freshness,
            clock_skew_secs: self.clock_skew_secs,
        }
    }
}

impl Clone for Trust {
    fn clone(&self) -> (t: Self)
        ensures
            t@ == self@,
    {
        proof {
            use_type_invariant(&self.revoked);
            self.revoked.lemma_pairs();
        }
        let mut revoked: OrderedMap<Id, ()> = OrderedMap::new();
        let mut i: usize = 0;
        while i < self.revoked.len()
            invariant
                i <= self.revoked.pairs().len(),
                forall|x: Seq<u8>| #[trigger]
                    revoked@.dom().contains(x) <==> exists|k: int|
                        0 <= k < i && (#[trigger] self.revoked.pairs()[k]).0 == x,
            decreases self.revoked.pairs().len() - i,
        {
            let id: Id = *self.revoked.key_at(i);
            revoked.insert(id, ());
            assert(self.revoked.pairs()[i as int].0 == id@);
            i = i + 1;
        }
        assert(revoked@.dom() =~= self.revoked@.dom());
        Trust {
            realm: self.realm,
            root: self.root,
            revoked,
            version: self.version,
            freshness: self.freshness,
            clock_skew_secs: self.clock_skew_secs,
        }
    }
}

/// Trust in an authority of which no revocation is known.
pub open spec fn new_trust(realm: Seq<u8>, root: Seq<u8>) -> TrustView {
    TrustView {
        realm,
        root,
        revoked: Set::empty(),
        version: 0,
        freshness: None,
        clock_skew_secs: 0,
    }
}

pub open spec fn saturating_sum(a: u64, b: u64) -> u64 {
    if a + b > u64::MAX {
        u64::MAX
    } else {
        (a + b) as u64
    }
}

/// Whether a certificate is in force, give or take the clock skew.
pub open spec fn in_force(t: TrustView, c: ClaimsView, now: u64) -> bool {
    &&& saturating_sum(now, t.clock_skew_secs) >= c.not_before
    &&& now < saturating_sum(c.expires, t.clock_skew_secs)
}

/// Whether what is known of revocations has not run out.
pub open spec fn trust_fresh(t: TrustView, now: u64) -> bool {
    match t.freshness {
        Some(deadline) => now < deadline,
        None => true,
    }
}

/// Whether `peer` may act on these claims, which are known to be the authority's.
pub open spec fn trust_check(t: TrustView, c: ClaimsView, peer: Seq<u8>, now: u64) -> Result<
    (),
    Error,
> {
    if c.realm != t.realm || c.issuer != t.root || c.subject != peer || t.revoked.contains(c.id) {
        Err(Error::Unauthorized)
    } else if !in_force(t, c, now) {
        Err(Error::CertificateExpired)
    } else if !trust_fresh(t, now) {
        Err(Error::Unauthorized)
    } else {
        Ok(())
    }
}

/// Whether `peer` may act on a certificate.
pub open spec fn trust_verify(t: TrustView, c: CertificateView, peer: Seq<u8>, now: u64) -> Result<
    (),
    Error,
> {
    match verified_payload(c.bytes, t.root, certificate_context(), MAX_CERT as nat) {
        Err(e) => Err(e),
        Ok(_) => trust_check(t, c.claims, peer, now),
    }
}

/// Trust after a signed list of revoked certificates.
pub open spec fn trust_apply(t: TrustView, snapshot: Seq<u8>, now: u64) -> Result<
    TrustView,
    Error,
> {
    match verified_payload(snapshot, t.root, revocation_context(), MAX_REVOCATION as nat) {
        Err(e) => Err(e),
        Ok(b) => trust_apply_list(t, b, now),
    }
}

/// Trust after a list of revoked certificates that is known to be the authority's.
pub open spec fn trust_apply_list(t: TrustView, b: Seq<u8>, now: u64) -> Result<TrustView, Error> {
    match take_array(b, 6) { Err(e) => Err(e), Ok(s) =>
    match take_version(s, 1) { Err(e) => Err(e), Ok(s) =>
    match take_fixed(s, 16) { Err(e) => Err(e), Ok((realm, s)) =>
    if realm != t.realm {
        Err(Error::Unauthorized)
    } else {
        match take_u(s) { Err(e) => Err(e), Ok((version, s)) =>
        match take_u(s) { Err(e) => Err(e), Ok((issued, s)) =>
        match take_u(s) { Err(e) => Err(e), Ok((expires, s)) =>
        if version <= t.version || issued > now || now >= expires || issued >= expires {
            Err(Error::Unauthorized)
        } else {
            match take_list(s, MAX_REVOKED as nat) { Err(e) => Err(e), Ok((count, s)) =>
            match take_all(s, count, id_take()) { Err(e) => Err(e), Ok((ids, s)) =>
            match take_end(s) { Err(e) => Err(e), Ok(()) =>
            match canonical_check(b, revocation_bytes(realm, version, issued, expires, ids)) {
                Err(e) => Err(e),
                Ok(()) => {
                    let revoked = t.revoked.union(ids.to_set());
                    if revoked.len() > MAX_REVOKED {
                        Err(Error::QueueFull)
                    } else {
                        Ok(TrustView { revoked, version, freshness: Some(expires), ..t })
                    }
                },
            } } } }
        } } } }
    } } } }
}

impl Trust {
    pub fn new(realm: RealmId, root: EndpointId) -> (t: Trust)
        ensures
            t@ == new_trust(realm@, root@),
    {
        let t = Trust {
            realm,
            root,
            revoked: OrderedMap::new(),
            version: 0,
            freshness: None,
            clock_skew_secs: 0,
        };
        assert(t@.revoked =~= Set::<Seq<u8>>::empty());
        t
    }

    pub fn realm_id(&self) -> (realm: RealmId)
        ensures
            realm@ == self@.realm,
    {
        self.realm
    }

    pub fn root(&self) -> (root: EndpointId)
        ensures
            root@ == self@.root,
    {
        self.root
    }

    /// The allowed certificate clock skew, in seconds.
    pub fn clock_skew(&self) -> (secs: u64)
        ensures
            secs == self@.clock_skew_secs,
    {
        self.clock_skew_secs
    }

    pub fn revoked_count(&self) -> (n: usize)
        ensures
            n == self@.revoked.len(),
            self@.revoked.finite(),
    {
        self.revoked.len()
    }

    pub fn revocation_version(&self) -> (v: u64)
        ensures
            v == self@.version,
    {
        self.version
    }

    /// Denies one certificate from now on.
    pub fn deny_certificate(&mut self, id: Id) -> (r: Result<(), Error>)
        ensures
            match r {
                Ok(()) => (old(self)@.revoked.len() < MAX_REVOKED || old(self)@.revoked.contains(
                    id@,
                )) && final(self)@ == (TrustView {
                    revoked: old(self)@.revoked.insert(id@),
                    ..old(self)@
                }),
                Err(e) => e == Error::QueueFull && old(self)@.revoked.len() >= MAX_REVOKED && !old(self)@.revoked.contains(id@) && final(self)@ == old(self)@,
            },
    {
        if self.revoked.len() >= MAX_REVOKED && !self.revoked.contains_key(&id) {
            return Err(Error::QueueFull);
        }
        self.revoked.insert(id, ());
        assert(self@.revoked =~= old(self)@.revoked.insert(id@));
        Ok(())
    }

    /// Reads `count` identifiers into a set, and writes them again behind `w`.
    fn read_ids(r: &mut Reader, w: &mut Writer, count: usize) -> (v: Result<
        OrderedMap<Id, ()>,
        Error,
    >)
        requires
            old(r).wf(),
        ensures
            final(r).wf(),
            match take_all(old(r)@, count as nat, id_take()) {
                Ok((ids, rest)) => v is Ok && v->Ok_0@.dom() == ids.to_set()
                    && final(r)@ == rest && final(w)@ == old(w)@ + put_all(ids, id_put()),
                Err(e) => v is Err && v->Err_0 == e,
            },
    {
        let ghost start = r@;
        let ghost head = w@;
        let ghost take = id_take();
        let mut set: OrderedMap<Id, ()> = OrderedMap::new();
        let ghost mut ids = Seq::<Seq<u8>>::empty();
        let mut i: usize = 0;
        proof {
            assert(set@.dom() =~= ids.to_set());
            lemma_nothing_after(head);
        }
        while i < count
            invariant
                i <= count,
                r.wf(),
                take == id_take(),
                start == old(r)@,
                head == old(w)@,
                set@.dom() == ids.to_set(),
                w@ == head + put_all(ids, id_put()),
                take_all(start, i as nat, take) == Ok::<(Seq<Seq<u8>>, Seq<u8>), Error>((ids, r@)),
            decreases count - i,
        {
            proof {
                if take_fixed(r@, 16) is Err {
                    assert(take_all(start, (i + 1) as nat, take) is Err);
                    lemma_take_all_error(start, (i + 1) as nat, count as nat, take);
                }
            }
            let id: Id = r.fixed()?;
            set.insert(id, ());
            w.bytes(&id);
            proof {
                let before = ids;
                ids = ids.push(id@);
                assert(ids.drop_last() =~= before);
                assert(set@.dom() =~= ids.to_set()) by {
                    assert forall|x: Seq<u8>| ids.to_set().contains(x) == before.to_set().insert(
                        id@,
                    ).contains(x) by {
                        if before.to_set().contains(x) {
                            let k = choose|k: int| 0 <= k < before.len() && before[k] == x;
                            assert(ids[k] == x);
                        }
                        if x == id@ {
                            assert(ids[ids.len() - 1] == x);
                        }
                    }
                }
                lemma_concat_assoc(head, put_all(before, id_put()), bytes_item(id@));
            }
            i = i + 1;
        }
        Ok(set)
    }

    /// Takes over a signed list of revoked certificates. Monotonic within this Trust instance:
    /// persist the version externally when rollback resistance is required.
    pub fn apply_revocations(&mut self, snapshot: &RevocationSnapshot, now: u64) -> (r: Result<
        (),
        Error,
    >)
        ensures
            match trust_apply(old(self)@, snapshot@, now) {
                Ok(t) => r is Ok && final(self)@ == t,
                Err(e) => r == Err::<(), Error>(e) && final(self)@ == old(self)@,
            },
    {
        let context = "iroh-mq/revocation/v1".as_bytes();
        let b = verify_cose(snapshot.as_bytes(), &self.root, context, MAX_REVOCATION)?;
        let mut r = Reader::new(b);
        r.array(6)?;
        read_version(&mut r, 1)?;
        let realm: RealmId = r.fixed()?;
        if !same_bytes(&realm, &self.realm) {
            return Err(Error::Unauthorized);
        }
        let v: u64 = r.u()?;
        let issued: u64 = r.u()?;
        let expires: u64 = r.u()?;
        if v <= self.version || issued > now || now >= expires || issued >= expires {
            return Err(Error::Unauthorized);
        }
        let n: usize = r.list(MAX_REVOKED)?;
        let mut w = Writer::new();
        w.array(6);
        w.u(1);
        w.bytes(&self.realm);
        w.u(v);
        w.u(issued);
        w.u(expires);
        w.array(n);
        let ghost listed = r@;
        let mut ids = Trust::read_ids(&mut r, &mut w, n)?;
        r.end()?;
        let encoded = w.finish();
        proof {
            lemma_take_all_len(listed, n as nat, id_take());
        }
        canonical(b, encoded.as_slice())?;
        // Revocations are cumulative: a new snapshot cannot undo an accepted denial.
        let ghost named = ids@.dom();
        let mut i: usize = 0;
        while i < self.revoked.len()
            invariant
                *self == *old(self),
                i <= self.revoked.pairs().len(),
                forall|x: Seq<u8>| #[trigger]
                    ids@.dom().contains(x) <==> named.contains(x) || exists|k: int|
                        0 <= k < i && (#[trigger] self.revoked.pairs()[k]).0 == x,
            decreases self.revoked.pairs().len() - i,
        {
            let id: Id = *self.revoked.key_at(i);
            ids.insert(id, ());
            proof {
                assert(self.revoked.pairs()[i as int].0 == id@);
            }
            i = i + 1;
        }
        proof {
            use_type_invariant(&self.revoked);
            self.revoked.lemma_pairs();
            assert(ids@.dom() =~= self@.revoked.union(named));
        }
        if ids.len() > MAX_REVOKED {
            return Err(Error::QueueFull);
        }
        self.revoked = ids;
        self.version = v;
        self.freshness = Some(expires);
        Ok(())
    }

    /// Whether the authenticated peer may act on the certificate now.
    pub fn verify(&self, certificate: &Certificate, authenticated_peer: EndpointId, now: u64) -> (r:
        Result<(), Error>)
        ensures
            r == trust_verify(self@, certificate@, authenticated_peer@, now),
    {
        let context = "iroh-mq/certificate/v1".as_bytes();
        verify_cose(certificate.as_bytes(), &self.root, context, MAX_CERT)?;
        self.check(certificate, authenticated_peer, now)
    }

    /// Whether the peer may act on the certificate, whose signature was verified before.
    pub fn check(&self, c: &Certificate, peer: EndpointId, now: u64) -> (r: Result<(), Error>)
        ensures
            r == trust_check(self@, c@.claims, peer@, now),
    {
        if !same_bytes(&c.claims.realm, &self.realm) || !c.claims.issuer.same(&self.root)
            || !c.claims.subject.same(&peer) || self.revoked.contains_key(&c.claims.id) {
            return Err(Error::Unauthorized);
        }
        if now.saturating_add(self.clock_skew_secs) < c.claims.not_before || now
            >= c.claims.expires.saturating_add(self.clock_skew_secs) {
            return Err(Error::CertificateExpired);
        }
        match self.freshness {
            Some(deadline) if now >= deadline => Err(Error::Unauthorized),
            _ => Ok(()),
        }
    }
}

impl Authority {
    /// Signs a list of revoked certificates, in which each stands once, in order.
    pub fn revocations(
        &self,
        version: u64,
        issued_at: u64,
        expires_at: u64,
        certificate_ids: Vec<Id>,
    ) -> (r: Result<RevocationSnapshot, Error>)
        ensures
            ({
                let set = id_views(certificate_ids@).to_set();
                if set.len() > MAX_REVOKED || issued_at >= expires_at || version == 0 {
                    r is Err && r->Err_0 == Error::Config("revocation snapshot")
                } else {
                    r is Ok && exists|ids: Seq<Seq<u8>>|
                        {
                            let payload = revocation_bytes(
                                self@.realm,
                                version,
                                issued_at,
                                expires_at,
                                ids,
                            );
                            &&& #[trigger] lists_ids(ids, set)
                            &&& r->Ok_0@ == sealed(self@.secret, payload, revocation_context())
                            &&& container_parts(r->Ok_0@, MAX_REVOCATION as nat) is Ok
                            &&& proper_commitment(
                                signature(
                                    self@.secret,
                                    signed_bytes(payload, revocation_context()),
                                ),
                            ) ==> verified_payload(
                                r->Ok_0@,
                                public_key(self@.secret),
                                revocation_context(),
                                MAX_REVOCATION as nat,
                            ) == Ok::<Seq<u8>, Error>(payload)
                        }
                }
            }),
    {
        let mut ids: OrderedMap<Id, ()> = OrderedMap::new();
        let ghost views = id_views(certificate_ids@);
        let mut i: usize = 0;
        while i < certificate_ids.len()
            invariant
                i <= certificate_ids.len(),
                views == id_views(certificate_ids@),
                forall|x: Seq<u8>| #[trigger]
                    ids@.dom().contains(x) <==> exists|k: int| 0 <= k < i && views[k] == x,
            decreases certificate_ids.len() - i,
        {
            ids.insert(certificate_ids[i], ());
            assert(views[i as int] == certificate_ids@[i as int]@);
            i = i + 1;
        }
        proof {
            assert(ids@.dom() =~= views.to_set());
        }
        if ids.len() > MAX_REVOKED || issued_at >= expires_at || version == 0 {
            return Err(Error::Config("revocation snapshot"));
        }
        let mut w = Writer::new();
        w.array(6);
        w.u(1);
        w.bytes(&self.realm);
        w.u(version);
        w.u(issued_at);
        w.u(expires_at);
        write_ids(&mut w, &ids);
        let ghost keys = set_keys(ids.pairs());
        let payload = w.finish();
        let context = "iroh-mq/revocation/v1".as_bytes();
        let bytes = sign_cose(payload.as_slice(), &self.key, context);
        proof {
            use_type_invariant(&ids);
            ids.lemma_pairs();
            assert forall|x: Seq<u8>| #[trigger] keys.to_set().contains(x) == views.to_set().contains(
                x,
            ) by {
                if keys.to_set().contains(x) {
                    let k = choose|k: int| 0 <= k < keys.len() && keys[k] == x;
                    assert(ids.pairs()[k].0 == x);
                }
                if views.to_set().contains(x) {
                    assert(ids@.contains_key(x));
                    let k = choose|k: int|
                        0 <= k < ids.pairs().len() && (#[trigger] ids.pairs()[k]).0 == x;
                    assert(keys[k] == x);
                }
            }
            assert(keys.to_set() =~= views.to_set());
            assert(lists_ids(keys, views.to_set())) by {
                assert forall|a: int, b: int| 0 <= a < b < keys.len() implies bytes_less(
                    #[trigger] keys[a],
                    #[trigger] keys[b],
                ) by {
                    assert(<Id as Key>::less(ids.pairs()[a].0, ids.pairs()[b].0));
                }
            }
            let payload = payload@;
            assert forall|k: int| 0 <= k < keys.len() implies (#[trigger] keys[k]).len() == 16 by {
                assert(views.to_set().contains(keys[k])) by {
                    assert(keys.to_set().contains(keys[k]));
                }
                let j = choose|j: int| 0 <= j < views.len() && views[j] == keys[k];
                assert(views[j] == certificate_ids@[j]@);
            }
            lemma_revocation_len(self@.realm, version, issued_at, expires_at, keys);
            lemma_sealed_len(self@.secret, payload, revocation_context());
            lemma_container_parts(
                payload,
                signature(self@.secret, signed_bytes(payload, revocation_context())),
                MAX_REVOCATION as nat,
            );
        }
        Ok(RevocationSnapshot { bytes })
    }
}

/// A list of revoked certificates takes seventeen bytes for each, and little more.
proof fn lemma_revocation_len(
    realm: Seq<u8>,
    version: u64,
    issued: u64,
    expires: u64,
    ids: Seq<Seq<u8>>,
)
    requires
        realm.len() == 16,
        ids.len() <= MAX_REVOKED,
        forall|i: int| 0 <= i < ids.len() ==> (#[trigger] ids[i]).len() == 16,
    ensures
        revocation_bytes(realm, version, issued, expires, ids).len() <= 100 + 17 * ids.len(),
{
    reveal(array_head);
    reveal(uint_item);
    reveal(bytes_item);
    lemma_put_ids_len(ids);
    lemma_head_len(4, 6);
    lemma_head_len(0, 1);
    lemma_head_len(2, 16);
    lemma_head_len(0, version);
    lemma_head_len(0, issued);
    lemma_head_len(0, expires);
    lemma_head_len(4, ids.len() as u64);
}

proof fn lemma_put_ids_len(ids: Seq<Seq<u8>>)
    requires
        forall|i: int| 0 <= i < ids.len() ==> (#[trigger] ids[i]).len() == 16,
    ensures
        put_all(ids, id_put()).len() == 17 * ids.len(),
    decreases ids.len(),
{
    if ids.len() > 0 {
        reveal(bytes_item);
        lemma_put_ids_len(ids.drop_last());
        assert(ids.last().len() == 16);
    }
}

/// A container adds little to its payload.
proof fn lemma_sealed_len(secret: Seq<u8>, payload: Seq<u8>, context: Seq<u8>)
    requires
        signature(secret, signed_bytes(payload, context)).len() == 64,
    ensures
        sealed(secret, payload, context).len() <= payload.len() + 110,
{
    reveal(array_head);
    reveal(empty_map_item);
    reveal(bytes_item);
    lemma_head_len(4, 4);
    lemma_head_len(2, 3);
    lemma_head_len(5, 0);
    lemma_head_len(2, payload.len() as u64);
    lemma_head_len(2, 64);
}

// What an authority promises

/// Every list of permissions that one certificate can grant together has an arrangement in the order
/// of their topics.
proof fn lemma_arrangement_exists(ps: Seq<PermissionView>)
    requires
        grantable(ps),
    ensures
        arranged(ps, arrangement(ps)),
{
    let m = Map::new(
        |k: Seq<char>| exists|i: int| 0 <= i < ps.len() && (#[trigger] ps[i]).topic == k,
        |k: Seq<char>| ps[choose|i: int| 0 <= i < ps.len() && (#[trigger] ps[i]).topic == k],
    );
    let topics = Seq::new(ps.len(), |i: int| ps[i].topic);
    assert(topics.no_duplicates());
    topics.unique_seq_to_set();
    assert(m.dom() =~= topics.to_set()) by {
        assert forall|k: Seq<char>| #[trigger] m.dom().contains(k) == topics.to_set().contains(k) by {
            if m.dom().contains(k) {
                let i = choose|i: int| 0 <= i < ps.len() && (#[trigger] ps[i]).topic == k;
                assert(topics[i] == k);
            }
            if topics.to_set().contains(k) {
                let i = choose|i: int| 0 <= i < topics.len() && topics[i] == k;
                assert(ps[i].topic == k);
            }
        }
    }
    assert forall|i: int| 0 <= i < ps.len() implies m.contains_key((#[trigger] ps[i]).topic)
        && m[ps[i].topic] == ps[i] by {
        let j = choose|j: int| 0 <= j < ps.len() && (#[trigger] ps[j]).topic == ps[i].topic;
    }
    lemma_listing_exists::<Topic, PermissionView>(m);
    let s = listing::<Topic, PermissionView>(m);
    let q = Seq::new(s.len(), |i: int| s[i].1);
    assert forall|i: int| 0 <= i < s.len() implies s[i].0 == (#[trigger] q[i]).topic
        && ps.contains(q[i]) by {
        lemma_pairs_map_index::<Topic, PermissionView>(s, i);
        assert(m.contains_key(s[i].0));
        let j = choose|j: int| 0 <= j < ps.len() && (#[trigger] ps[j]).topic == s[i].0;
        assert(m[ps[j].topic] == ps[j]);
    }
    assert(q.to_set() =~= ps.to_set()) by {
        assert forall|p: PermissionView| #[trigger] q.to_set().contains(p) == ps.to_set().contains(
            p,
        ) by {
            if ps.to_set().contains(p) {
                let i = choose|i: int| 0 <= i < ps.len() && ps[i] == p;
                assert(pairs_map(s).contains_key(ps[i].topic));
                let k = choose|k: int| 0 <= k < s.len() && (#[trigger] s[k]).0 == ps[i].topic;
                lemma_pairs_map_index::<Topic, PermissionView>(s, k);
                assert(q[k] == p);
            }
            if q.to_set().contains(p) {
                let k = choose|k: int| 0 <= k < q.len() && q[k] == p;
                assert(ps.contains(q[k]));
            }
        }
    }
    assert forall|i: int| 0 <= i < q.len() implies (#[trigger] q[i]).publish || q[i].subscribe by {
        assert(ps.contains(q[i]));
    }
    assert forall|i: int, j: int| 0 <= i < j < q.len() implies text_less(
        (#[trigger] q[i]).topic,
        (#[trigger] q[j]).topic,
    ) by {
        assert(<Topic as Key>::less(s[i].0, s[j].0));
    }
    assert(arranged(ps, q));
}

/// What an authority issues says what was asked for, its permissions rearranged in the order of
/// their topics, none twice. Who trusts the authority alone accepts it from its subject exactly from
/// its start to its end.
pub proof fn law_issued_is_as_asked(
    a: AuthorityView,
    id: Seq<u8>,
    subject: Seq<u8>,
    permissions: Seq<PermissionView>,
    not_before: u64,
    expires: u64,
    limits: CertificateLimits,
    c: CertificateView,
    now: u64,
)
    requires
        issued(a, id, subject, permissions, not_before, expires, limits) == Ok::<
            CertificateView,
            Error,
        >(c),
    ensures
        arranged(permissions, c.claims.permissions),
        c.claims.subject == subject,
        c.claims.expires == expires,
        c.claims.limits == limits,
        verifies_in_time(c) ==> (trust_verify(
            new_trust(a.realm, public_key(a.secret)),
            c,
            subject,
            now,
        ) is Ok <==> not_before <= now < expires),
{
    lemma_arrangement_exists(permissions);
    let t = new_trust(a.realm, public_key(a.secret));
    if not_before <= now < expires {
        assert(in_force(t, c.claims, now));
        assert(verifies_in_time(c) ==> trust_verify(t, c, c.claims.subject, now) == Ok::<
            (),
            Error,
        >(()));
    }
}

/// Identifiers that are repeated or stand in another order make no difference to a list of revoked
/// certificates.
pub proof fn law_revocations_ignore_order(
    a: Seq<Seq<u8>>,
    b: Seq<Seq<u8>>,
    ids: Seq<Seq<u8>>,
    others: Seq<Seq<u8>>,
)
    requires
        a.to_set() == b.to_set(),
        lists_ids(ids, a.to_set()),
        lists_ids(others, b.to_set()),
    ensures
        ids == others,
        ids.len() == a.to_set().len(),
{
    let s = Seq::new(ids.len(), |i: int| (ids[i], ()));
    let t = Seq::new(others.len(), |i: int| (others[i], ()));
    assert forall|i: int, j: int| 0 <= i < j < s.len() implies <Id as Key>::less(
        (#[trigger] s[i]).0,
        (#[trigger] s[j]).0,
    ) by {
        assert(bytes_less(ids[i], ids[j]));
    }
    assert forall|i: int, j: int| 0 <= i < j < t.len() implies <Id as Key>::less(
        (#[trigger] t[i]).0,
        (#[trigger] t[j]).0,
    ) by {
        assert(bytes_less(others[i], others[j]));
    }
    assert forall|k: Seq<u8>| #[trigger] pairs_map(s).contains_key(k) == pairs_map(t).contains_key(
        k,
    ) by {
        if pairs_map(s).contains_key(k) {
            let i = choose|i: int| 0 <= i < s.len() && (#[trigger] s[i]).0 == k;
            assert(ids.to_set().contains(ids[i]));
            let j = choose|j: int| 0 <= j < others.len() && others[j] == k;
            assert(t[j].0 == k);
        }
        if pairs_map(t).contains_key(k) {
            let i = choose|i: int| 0 <= i < t.len() && (#[trigger] t[i]).0 == k;
            assert(others.to_set().contains(others[i]));
            let j = choose|j: int| 0 <= j < ids.len() && ids[j] == k;
            assert(s[j].0 == k);
        }
    }
    assert(pairs_map(s) =~= pairs_map(t));
    lemma_pairs_unique::<Id, ()>(s, t);
    assert forall|i: int| 0 <= i < ids.len() implies ids[i] == others[i] by {
        assert(s[i] == t[i]);
    }
    assert(ids =~= others);
    assert forall|i: int, j: int| 0 <= i < j < ids.len() implies ids[i] != ids[j] by {
        <Id as Key>::less_irreflexive(ids[i]);
        assert(bytes_less(ids[i], ids[j]));
    }
    assert(ids.no_duplicates());
    ids.unique_seq_to_set();
}

// What trust promises

/// Revocations are monotonic and cumulative: taking over a list never takes back a denial, always
/// raises the version, and says for how long the list is to be relied on.
pub proof fn law_revocations_cumulative(t: TrustView, snapshot: Seq<u8>, now: u64)
    ensures
        trust_apply(t, snapshot, now) matches Ok(after) ==> {
            &&& t.revoked.subset_of(after.revoked)
            &&& t.version < after.version
            &&& after.freshness matches Some(deadline) && now < deadline
            &&& after.realm == t.realm && after.root == t.root
            &&& after.clock_skew_secs == t.clock_skew_secs
        },
{
}

/// A list that was taken over once is not taken over again.
pub proof fn law_revocations_not_replayed(t: TrustView, snapshot: Seq<u8>, now: u64, later: u64)
    ensures
        trust_apply(t, snapshot, now) matches Ok(after) ==> trust_apply(after, snapshot, later)
            == Err::<TrustView, Error>(Error::Unauthorized),
{
}

/// No one acts on a revoked certificate, however valid it is otherwise.
pub proof fn law_revoked_is_refused(t: TrustView, c: CertificateView, peer: Seq<u8>, now: u64)
    requires
        t.revoked.contains(c.claims.id),
    ensures
        trust_check(t, c.claims, peer, now) == Err::<(), Error>(Error::Unauthorized),
        trust_verify(t, c, peer, now) is Err,
{
}

/// Only the authority of the realm makes certificates: claims that another endpoint issued are
/// refused, as are claims on another realm and claims of another endpoint.
pub proof fn law_no_delegation(t: TrustView, c: CertificateView, peer: Seq<u8>, now: u64)
    requires
        c.claims.issuer != t.root || c.claims.realm != t.realm || c.claims.subject != peer,
    ensures
        trust_verify(t, c, peer, now) is Err,
{
}

/// A list that an authority made is taken over by those who trust it, while it is in force: every
/// certificate that it names is revoked from then on, together with those that were before.
pub proof fn law_revocations_apply(
    t: TrustView,
    version: u64,
    issued: u64,
    expires: u64,
    ids: Seq<Seq<u8>>,
    now: u64,
)
    requires
        t.realm.len() == 16,
        t.version < version,
        issued <= now < expires,
        ids.len() <= MAX_REVOKED,
        forall|i: int| 0 <= i < ids.len() ==> (#[trigger] ids[i]).len() == 16,
        t.revoked.union(ids.to_set()).len() <= MAX_REVOKED,
    ensures
        trust_apply_list(t, revocation_bytes(t.realm, version, issued, expires, ids), now) == Ok::<
            TrustView,
            Error,
        >(
            TrustView {
                revoked: t.revoked.union(ids.to_set()),
                version,
                freshness: Some(expires),
                ..t
            },
        ),
{
    broadcast use {group_read_back, group_fields_back};

    let put = id_put();
    let take = id_take();
    let none = Seq::<u8>::empty();
    assert forall|i: int, s: Seq<u8>| 0 <= i < ids.len() implies #[trigger] take(put(ids[i]) + s)
        == Ok::<(Seq<u8>, Seq<u8>), Error>((ids[i], s)) by {
        lemma_take_fixed(ids[i], 16, s);
    }
    lemma_take_all(ids, none, put, take);
    lemma_nothing_after(put_all(ids, put));
}

/// A certificate that is read is the one way to write its claims and its signature, and its claims
/// keep the rules.
pub proof fn law_certificate_canonical(b: Seq<u8>)
    ensures
        certificate_of(b) matches Ok(c) ==> {
            &&& claims_check(c) is Ok
            &&& container_parts(b, MAX_CERT as nat) matches Ok((payload, s)) && payload
                == claims_bytes(c) && b == container(payload, s)
        },
{
    lemma_container_canonical(b, MAX_CERT as nat);
}

} // verus!
