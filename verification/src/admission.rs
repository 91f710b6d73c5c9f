//! Who is admitted to a realm: the codes that a host has given out, the endpoints that redeemed
//! them, and the state that survives the host.
use crate::address::{compact, AddressView, EndpointAddr};
use crate::auth::{
    certificate_consistent, certificate_of, certificate_outcome, issued, limits_bytes, new_trust,
    permission_bytes, permission_put, permission_views, trust_check, trust_verify,
    write_permissions, Authority, AuthorityView, Certificate, CertificateLimits, CertificateView,
    Permission, PermissionView, Trust, TrustView, MAX_CERT, MAX_PERMISSIONS,
};
use crate::cbor::{
    array_head, bytes_item, canonical, canonical_check, lemma_head_len, lemma_nothing_after,
    lemma_take_array, lemma_take_bytes, lemma_take_fixed, lemma_take_list, lemma_take_u,
    take_array, take_bytes, take_end, take_fixed, take_list, take_u, text_item, uint_item, Reader,
    Writer,
};
use crate::crypto::{
    digest, is_public_key, public_key, random_bytes, random_id, sha256, EndpointId, Id,
};
use crate::bootstrap::{Enrollment, EnrollmentView};
use crate::error::Error;
use crate::join::{
    code_id, code_text, copy_permissions, options_valid, CodeView, JoinCode, JoinOptions,
    OptionsView, MAX_JOIN_SECS,
};
use crate::ledger::{asked_in_turn, refusal, since, AskedView, Ledger, SavedView};
use crate::message::valid_topic;
use crate::octets::{lemma_concat_assoc, same_bytes};
use crate::ordered::{kept, lemma_listing_exists, lemma_pairs_map_index, listing, OrderedMap};
use crate::record::{
    lemma_take_all, lemma_take_all_error, lemma_take_endpoint, lemma_take_fold_error,
    lemma_take_fold_map, lemma_take_topic, put_all, read_endpoint, read_topic, take_all,
    take_endpoint, take_fold, take_topic, Gather, Put, Take,
};
use crate::time::Duration;
use std::sync::Arc;
use vstd::prelude::*;
use vstd::utf8::encode_utf8;

verus! {

/// The longest persistent state, in bytes.
pub const MAX_STATE: usize = 4194304;

/// The most codes, redemptions of a code, or members that a persistent state lists.
pub const MAX_LISTED: usize = 256;

// What a host keeps

/// A code that was given out, as a value.
#[verifier::ext_equal]
pub struct GrantView {
    pub hash: Seq<u8>,
    pub expires: u64,
    pub options: OptionsView,
    pub redeemed: Map<Seq<u8>, CertificateView>,
}

/// A code that was given out: the digest of its secret, what it grants, and to whom it was granted.
/// `P` is whatever accounts for the memory that it takes.
pub struct Grant<P> {
    hash: [u8; 32],
    expires: u64,
    options: JoinOptions,
    redeemed: OrderedMap<EndpointId, Redemption<P>>,
    memory: Option<P>,
}

/// A certificate that a code brought. What accounts for its memory is shared with the member that it
/// made, and is held as long as either is kept.
pub struct Redemption<P> {
    certificate: Certificate,
    metering: Option<Arc<P>>,
}

impl<P> View for Redemption<P> {
    type V = CertificateView;

    closed spec fn view(&self) -> CertificateView {
        self.certificate@
    }
}

impl<P> Grant<P> {
    /// What is attached to a code keeps the rules.
    #[verifier::type_invariant]
    pub closed spec fn valid(self) -> bool {
        options_valid(self.options@)
    }
}

impl<P> View for Grant<P> {
    type V = GrantView;

    closed spec fn view(&self) -> GrantView {
        GrantView {
            hash: self.hash@,
            expires: self.expires,
            options: self.options@,
            redeemed: self.redeemed@,
        }
    }
}

/// An endpoint that was admitted, under one of its certificates.
pub struct Member<P> {
    certificate: Certificate,
    memory: Option<P>,
    metering: Option<Arc<P>>,
}

impl<P> View for Member<P> {
    type V = CertificateView;

    closed spec fn view(&self) -> CertificateView {
        self.certificate@
    }
}

/// What a host keeps, as a value: its authority, its codes by their identifiers, and its members by
/// the identifiers of their certificates.
#[verifier::ext_equal]
pub struct HostView {
    pub authority: AuthorityView,
    pub codes: Map<Seq<u8>, GrantView>,
    pub members: Map<Seq<u8>, CertificateView>,
}

/// Application-managed storage for the host authority, grants, and membership records.
/// These opaque bytes contain private keys and must be kept confidential. `save` must
/// atomically and durably replace the entire value before returning success. Calls are
/// synchronous and serialized by the endpoint owner, as with file persistence.
pub trait HostStorage: Send + Sync + 'static {
    fn load(&self) -> Result<Option<Vec<u8>>, Error>;

    fn save(&self, bytes: &[u8]) -> Result<(), Error>;
}

/// What a host keeps, and where.
pub struct Host<P> {
    authority: Authority,
    codes: OrderedMap<Id, Grant<P>>,
    members: OrderedMap<Id, Member<P>>,
    storage: Option<Ledger<Arc<dyn HostStorage>, SavedView>>,
}

impl<P> View for Host<P> {
    type V = HostView;

    closed spec fn view(&self) -> HostView {
        HostView {
            authority: self.authority@,
            codes: self.codes@,
            members: self.members@,
        }
    }
}

// The state in bytes

pub open spec fn redeemed_bytes(r: (Seq<u8>, CertificateView)) -> Seq<u8> {
    array_head(2) + (bytes_item(r.0) + bytes_item(r.1.bytes))
}

pub open spec fn redeemed_put() -> Put<(Seq<u8>, CertificateView)> {
    |r: (Seq<u8>, CertificateView)| redeemed_bytes(r)
}

/// The certificates that a code brought, in the order of their holders.
pub open spec fn redeemed_list(g: GrantView) -> Seq<(Seq<u8>, CertificateView)> {
    listing::<EndpointId, CertificateView>(g.redeemed)
}

pub open spec fn options_bytes(o: OptionsView, rest: Seq<u8>) -> Seq<u8> {
    uint_item((o.lifetime / 1_000_000_000) as u64) + (uint_item(
        (o.certificate_lifetime / 1_000_000_000) as u64,
    ) + (uint_item(o.max_uses as u64) + (limits_bytes(o.limits) + (array_head(
        o.permissions.len() as u64,
    ) + (put_all(o.permissions, permission_put()) + rest)))))
}

pub open spec fn grant_bytes(c: (Seq<u8>, GrantView)) -> Seq<u8> {
    let g = c.1;
    array_head(9) + (bytes_item(c.0) + (bytes_item(g.hash) + (uint_item(g.expires) + options_bytes(
        g.options,
        array_head(redeemed_list(g).len() as u64) + put_all(redeemed_list(g), redeemed_put()),
    ))))
}

pub open spec fn grant_put() -> Put<(Seq<u8>, GrantView)> {
    |c: (Seq<u8>, GrantView)| grant_bytes(c)
}

pub open spec fn member_put() -> Put<(Seq<u8>, CertificateView)> {
    |m: (Seq<u8>, CertificateView)| bytes_item(m.1.bytes)
}

pub open spec fn code_list(h: HostView) -> Seq<(Seq<u8>, GrantView)> {
    listing::<Id, GrantView>(h.codes)
}

pub open spec fn member_list(h: HostView) -> Seq<(Seq<u8>, CertificateView)> {
    listing::<Id, CertificateView>(h.members)
}

/// The whole state of a host in bytes. The empty list at its end is reserved for additive state.
pub open spec fn host_bytes(h: HostView) -> Seq<u8> {
    array_head(6) + (uint_item(1) + (bytes_item(h.authority.secret) + (bytes_item(h.authority.realm)
        + (array_head(code_list(h).len() as u64) + (put_all(code_list(h), grant_put()) + (
    array_head(member_list(h).len() as u64) + (put_all(member_list(h), member_put()) + array_head(
        0,
    ))))))))
}

pub open spec fn take_state_permission(s: Seq<u8>) -> Result<(PermissionView, Seq<u8>), Error> {
    match take_array(s, 2) { Err(e) => Err(e), Ok(s) =>
    match take_topic(s) { Err(e) => Err(e), Ok((topic, s)) =>
    match take_u(s) { Err(e) => Err(e), Ok((mask, s)) =>
    if !(1 <= mask <= 3) {
        Err(Error::Protocol("persistent permission mask"))
    } else {
        Ok((PermissionView { topic, publish: mask != 2, subscribe: mask != 1 }, s))
    } } } }
}

pub open spec fn state_permission_take() -> Take<PermissionView> {
    |s: Seq<u8>| take_state_permission(s)
}

/// Reads the certificate of `peer`, which the authority must have issued; it may have run out.
pub open spec fn take_state_certificate(
    s: Seq<u8>,
    t: TrustView,
    peer: Option<Seq<u8>>,
    now: u64,
) -> Result<(CertificateView, Seq<u8>), Error> {
    match take_bytes(s, MAX_CERT as nat) { Err(e) => Err(e), Ok((bytes, s)) =>
    match certificate_of(bytes) { Err(e) => Err(e), Ok(claims) => {
        let c = CertificateView { claims, bytes };
        let holder = match peer {
            Some(peer) => peer,
            None => claims.subject,
        };
        match trust_verify(t, c, holder, now) {
            Ok(()) => Ok((c, s)),
            Err(Error::CertificateExpired) => Ok((c, s)),
            Err(e) => Err(e),
        }
    } } }
}

/// Reads one redemption of a code.
pub open spec fn gather_redeemed(
    m: Map<Seq<u8>, CertificateView>,
    s: Seq<u8>,
    t: TrustView,
    now: u64,
) -> Result<(Map<Seq<u8>, CertificateView>, Seq<u8>), Error> {
    match take_array(s, 2) { Err(e) => Err(e), Ok(s) =>
    match take_endpoint(s) { Err(e) => Err(e), Ok((peer, s)) =>
    match take_state_certificate(s, t, Some(peer), now) { Err(e) => Err(e), Ok((c, s)) =>
    if m.contains_key(peer) {
        Err(Error::Protocol("duplicate persisted endpoint"))
    } else {
        Ok((m.insert(peer, c), s))
    } } } }
}

pub open spec fn redeemed_gather(t: TrustView, now: u64) -> Gather<Map<Seq<u8>, CertificateView>> {
    |m: Map<Seq<u8>, CertificateView>, s: Seq<u8>| gather_redeemed(m, s, t, now)
}

/// Reads what is attached to a code.
pub open spec fn take_options(s: Seq<u8>) -> Result<(OptionsView, Seq<u8>), Error> {
    match take_u(s) { Err(e) => Err(e), Ok((lifetime, s)) =>
    match take_u(s) { Err(e) => Err(e), Ok((certificate_lifetime, s)) =>
    match take_u(s) { Err(e) => Err(e), Ok((max_uses, s)) =>
    if max_uses > usize::MAX {
        Err(Error::Protocol("persistent max uses"))
    } else {
        match take_array(s, 2) { Err(e) => Err(e), Ok(s) =>
        match take_u(s) { Err(e) => Err(e), Ok((max_payload, s)) =>
        match take_u(s) { Err(e) => Err(e), Ok((max_subscriptions, s)) =>
        match take_list(s, MAX_PERMISSIONS as nat) { Err(e) => Err(e), Ok((count, s)) =>
        match take_all(s, count, state_permission_take()) {
            Err(e) => Err(e),
            Ok((permissions, s)) => {
                let o = OptionsView {
                    permissions,
                    limits: CertificateLimits { max_payload, max_subscriptions },
                    lifetime: (lifetime * 1_000_000_000) as nat,
                    certificate_lifetime: (certificate_lifetime * 1_000_000_000) as nat,
                    max_uses: max_uses as usize,
                };
                if options_valid(o) {
                    Ok((o, s))
                } else {
                    Err(Error::Config("invalid join code limits"))
                }
            },
        } } } } }
    } } } }
}

/// Reads one code.
pub open spec fn gather_grant(
    m: Map<Seq<u8>, GrantView>,
    s: Seq<u8>,
    t: TrustView,
    now: u64,
) -> Result<(Map<Seq<u8>, GrantView>, Seq<u8>), Error> {
    match take_array(s, 9) { Err(e) => Err(e), Ok(s) =>
    match take_fixed(s, 16) { Err(e) => Err(e), Ok((id, s)) =>
    match take_fixed(s, 32) { Err(e) => Err(e), Ok((hash, s)) =>
    match take_u(s) { Err(e) => Err(e), Ok((expires, s)) =>
    match take_options(s) { Err(e) => Err(e), Ok((options, s)) =>
    match take_list(s, MAX_LISTED as nat) { Err(e) => Err(e), Ok((count, s)) =>
    match take_fold(s, count, Map::empty(), redeemed_gather(t, now)) {
        Err(e) => Err(e),
        Ok((redeemed, s)) => if redeemed.dom().len() > options.max_uses || m.contains_key(id) {
            Err(Error::Protocol("duplicate or overused persisted code"))
        } else {
            Ok((m.insert(id, GrantView { hash, expires, options, redeemed }), s))
        },
    } } } } } } }
}

pub open spec fn grant_gather(t: TrustView, now: u64) -> Gather<Map<Seq<u8>, GrantView>> {
    |m: Map<Seq<u8>, GrantView>, s: Seq<u8>| gather_grant(m, s, t, now)
}

/// Reads one member.
pub open spec fn gather_member(
    m: Map<Seq<u8>, CertificateView>,
    s: Seq<u8>,
    t: TrustView,
    now: u64,
) -> Result<(Map<Seq<u8>, CertificateView>, Seq<u8>), Error> {
    match take_state_certificate(s, t, None, now) {
        Err(e) => Err(e),
        Ok((c, s)) => if m.contains_key(c.claims.id) {
            Err(Error::Protocol("duplicate persisted certificate"))
        } else {
            Ok((m.insert(c.claims.id, c), s))
        },
    }
}

pub open spec fn member_gather(t: TrustView, now: u64) -> Gather<Map<Seq<u8>, CertificateView>> {
    |m: Map<Seq<u8>, CertificateView>, s: Seq<u8>| gather_member(m, s, t, now)
}

/// The state that `b` holds.
pub open spec fn host_of(b: Seq<u8>, now: u64) -> Result<HostView, Error> {
    if b.len() > MAX_STATE {
        Err(Error::MessageTooLarge)
    } else {
        match take_array(b, 6) { Err(e) => Err(e), Ok(s) =>
        match take_u(s) { Err(e) => Err(e), Ok((version, s)) =>
        if version != 1 {
            Err(Error::Protocol("persistent-state version"))
        } else {
            match take_fixed(s, 32) { Err(e) => Err(e), Ok((secret, s)) =>
            match take_fixed(s, 16) { Err(e) => Err(e), Ok((realm, s)) => {
                let t = new_trust(realm, public_key(secret));
                match take_list(s, MAX_LISTED as nat) { Err(e) => Err(e), Ok((count, s)) =>
                match take_fold(s, count, Map::empty(), grant_gather(t, now)) {
                    Err(e) => Err(e),
                    Ok((codes, s)) =>
                match take_list(s, MAX_LISTED as nat) { Err(e) => Err(e), Ok((count, s)) =>
                match take_fold(s, count, Map::empty(), member_gather(t, now)) {
                    Err(e) => Err(e),
                    Ok((members, s)) =>
                match take_list(s, 0) { Err(e) => Err(e), Ok((_, s)) =>
                match take_end(s) { Err(e) => Err(e), Ok(()) => {
                    let h = HostView {
                        authority: AuthorityView { secret, realm },
                        codes,
                        members,
                    };
                    match canonical_check(b, host_bytes(h)) {
                        Err(e) => Err(e),
                        Ok(()) => Ok(h),
                    }
                } } } } } } }
            } } }
        } } }
    }
}

// Writing the state

/// Appends the redemptions of a code to a record.
fn write_redeemed<P>(w: &mut Writer, redeemed: &OrderedMap<EndpointId, Redemption<P>>)
    ensures
        final(w)@ == old(w)@ + (array_head(redeemed.pairs().len() as u64) + put_all(
            redeemed.pairs(),
            redeemed_put(),
        )),
{
    let ghost start = w@;
    let ghost list = redeemed.pairs();
    let ghost put = redeemed_put();
    let ghost head = array_head(list.len() as u64);
    w.array(redeemed.len());
    let mut i: usize = 0;
    proof {
        assert(list.take(0) =~= Seq::<(Seq<u8>, CertificateView)>::empty());
        lemma_nothing_after(head);
    }
    while i < redeemed.len()
        invariant
            i <= list.len(),
            list == redeemed.pairs(),
            put == redeemed_put(),
            w@ == start + (head + put_all(list.take(i as int), put)),
        decreases list.len() - i,
    {
        w.array(2);
        w.bytes(redeemed.key_at(i).as_bytes());
        w.bytes(redeemed.value_at(i).certificate.as_bytes());
        proof {
            let next = list.take(i + 1);
            let had = put_all(list.take(i as int), put);
            assert(next.drop_last() =~= list.take(i as int));
            lemma_concat_assoc(start, head + had, redeemed_bytes(list[i as int]));
            lemma_concat_assoc(head, had, redeemed_bytes(list[i as int]));
        }
        i = i + 1;
    }
    assert(list.take(i as int) =~= list);
}

impl<P> Grant<P> {
    /// Appends the code with the identifier `id` to a record.
    fn write(&self, w: &mut Writer, id: &Id)
        ensures
            final(w)@ == old(w)@ + grant_bytes((id@, self@)),
    {
        proof {
            use_type_invariant(&self.redeemed);
            self.redeemed.lemma_pairs();
        }
        w.array(9);
        w.bytes(id);
        w.bytes(&self.hash);
        w.u(self.expires);
        w.u(self.options.lifetime.as_secs());
        w.u(self.options.certificate_lifetime.as_secs());
        w.u(self.options.max_uses as u64);
        let ghost before = w@;
        w.array(2);
        w.u(self.options.limits.max_payload);
        w.u(self.options.limits.max_subscriptions);
        let ghost limited = w@;
        proof {
            assert forall|rest: Seq<u8>| #[trigger] (limited + rest) == before + (limits_bytes(
                self.options.limits,
            ) + rest) by {
                assert(limited == before + limits_bytes(self.options.limits));
                lemma_concat_assoc(before, limits_bytes(self.options.limits), rest);
            }
        }
        write_permissions(w, &self.options.permissions);
        write_redeemed(w, &self.redeemed);
    }
}

impl<P> Host<P> {
    fn write_codes(&self, w: &mut Writer)
        ensures
            final(w)@ == old(w)@ + (array_head(code_list(self@).len() as u64) + put_all(
                code_list(self@),
                grant_put(),
            )),
            forall|rest: Seq<u8>| #[trigger]
                (final(w)@ + rest) == old(w)@ + (array_head(code_list(self@).len() as u64) + (
                put_all(code_list(self@), grant_put()) + rest)),
    {
        proof {
            use_type_invariant(&self.codes);
            self.codes.lemma_pairs();
        }
        let ghost start = w@;
        let ghost list = code_list(self@);
        let ghost put = grant_put();
        let ghost head = array_head(list.len() as u64);
        w.array(self.codes.len());
        let mut i: usize = 0;
        proof {
            assert(list.take(0) =~= Seq::<(Seq<u8>, GrantView)>::empty());
            lemma_nothing_after(head);
        }
        while i < self.codes.len()
            invariant
                i <= list.len(),
                list == self.codes.pairs(),
                put == grant_put(),
                w@ == start + (head + put_all(list.take(i as int), put)),
            decreases list.len() - i,
        {
            self.codes.value_at(i).write(w, self.codes.key_at(i));
            proof {
                let next = list.take(i + 1);
                let had = put_all(list.take(i as int), put);
                assert(next.drop_last() =~= list.take(i as int));
                lemma_concat_assoc(start, head + had, grant_bytes(list[i as int]));
                lemma_concat_assoc(head, had, grant_bytes(list[i as int]));
            }
            i = i + 1;
        }
        proof {
            assert(list.take(i as int) =~= list);
            let all = put_all(list, put);
            assert forall|rest: Seq<u8>| #[trigger] (w@ + rest) == start + (head + (all + rest)) by {
                lemma_concat_assoc(start, head + all, rest);
                lemma_concat_assoc(head, all, rest);
            }
        }
    }

    fn write_members(&self, w: &mut Writer)
        ensures
            final(w)@ == old(w)@ + (array_head(member_list(self@).len() as u64) + put_all(
                member_list(self@),
                member_put(),
            )),
            forall|rest: Seq<u8>| #[trigger]
                (final(w)@ + rest) == old(w)@ + (array_head(member_list(self@).len() as u64) + (
                put_all(member_list(self@), member_put()) + rest)),
    {
        proof {
            use_type_invariant(&self.members);
            self.members.lemma_pairs();
        }
        let ghost start = w@;
        let ghost list = member_list(self@);
        let ghost put = member_put();
        let ghost head = array_head(list.len() as u64);
        w.array(self.members.len());
        let mut i: usize = 0;
        proof {
            assert(list.take(0) =~= Seq::<(Seq<u8>, CertificateView)>::empty());
            lemma_nothing_after(head);
        }
        while i < self.members.len()
            invariant
                i <= list.len(),
                list == self.members.pairs(),
                put == member_put(),
                w@ == start + (head + put_all(list.take(i as int), put)),
            decreases list.len() - i,
        {
            w.bytes(self.members.value_at(i).certificate.as_bytes());
            proof {
                let next = list.take(i + 1);
                let had = put_all(list.take(i as int), put);
                assert(next.drop_last() =~= list.take(i as int));
                lemma_concat_assoc(start, head + had, bytes_item(list[i as int].1.bytes));
                lemma_concat_assoc(head, had, bytes_item(list[i as int].1.bytes));
            }
            i = i + 1;
        }
        proof {
            assert(list.take(i as int) =~= list);
            let all = put_all(list, put);
            assert forall|rest: Seq<u8>| #[trigger] (w@ + rest) == start + (head + (all + rest)) by {
                lemma_concat_assoc(start, head + all, rest);
                lemma_concat_assoc(head, all, rest);
            }
        }
    }

    /// A host that has admitted no one.
    pub fn new(authority: Authority, storage: Option<Arc<dyn HostStorage>>) -> (h: Host<P>)
        ensures
            h@ == (HostView {
                authority: authority@,
                codes: Map::empty(),
                members: Map::empty(),
            }),
            h.stored() == storage is Some,
            h.saves().len() == 0,
    {
        let storage = match storage {
            Some(storage) => Some(Ledger::new(storage)),
            None => None,
        };
        Host { authority, codes: OrderedMap::new(), members: OrderedMap::new(), storage }
    }

    /// Whether the state is kept in storage.
    pub closed spec fn stored(&self) -> bool {
        self.storage is Some
    }

    /// What was handed to storage so far, in order, and what storage answered.
    pub closed spec fn saves(&self) -> Seq<SavedView> {
        match self.storage {
            Some(storage) => storage.log(),
            None => Seq::empty(),
        }
    }

    pub fn encode(&self) -> (b: Vec<u8>)
        ensures
            b@ == host_bytes(self@),
    {
        let mut w = Writer::new();
        w.array(6);
        w.u(1);
        w.bytes(&self.authority.secret_bytes());
        w.bytes(&self.authority.realm_id());
        self.write_codes(&mut w);
        self.write_members(&mut w);
        // Reserved for additive state that can be introduced in a new format version.
        w.array(0);
        w.finish()
    }
}

// Reading the state

fn read_state_permission(r: &mut Reader) -> (p: Result<Permission, Error>)
    requires
        old(r).wf(),
    ensures
        final(r).wf(),
        match take_state_permission(old(r)@) {
            Ok((v, rest)) => p is Ok && p->Ok_0@ == v && final(r)@ == rest,
            Err(e) => p is Err && p->Err_0 == e,
        },
{
    r.array(2)?;
    let topic = read_topic(r)?;
    let mask: u64 = r.u()?;
    if mask < 1 || mask > 3 {
        return Err(Error::Protocol("persistent permission mask"));
    }
    Ok(Permission { topic, publish: mask != 2, subscribe: mask != 1 })
}

fn read_state_permissions(r: &mut Reader, count: usize) -> (v: Result<Vec<Permission>, Error>)
    requires
        old(r).wf(),
    ensures
        final(r).wf(),
        match take_all(old(r)@, count as nat, state_permission_take()) {
            Ok((ps, rest)) => v is Ok && permission_views(v->Ok_0@) == ps && final(r)@ == rest,
            Err(e) => v is Err && v->Err_0 == e,
        },
{
    let ghost start = r@;
    let ghost take = state_permission_take();
    let mut permissions: Vec<Permission> = Vec::new();
    let mut i: usize = 0;
    assert(permission_views(permissions@) =~= Seq::<PermissionView>::empty());
    while i < count
        invariant
            i <= count,
            r.wf(),
            take == state_permission_take(),
            start == old(r)@,
            take_all(start, i as nat, take) == Ok::<(Seq<PermissionView>, Seq<u8>), Error>(
                (permission_views(permissions@), r@),
            ),
        decreases count - i,
    {
        proof {
            if take_state_permission(r@) is Err {
                assert(take_all(start, (i + 1) as nat, take) is Err);
                lemma_take_all_error(start, (i + 1) as nat, count as nat, take);
            }
        }
        let p = read_state_permission(r)?;
        let ghost had = permissions@;
        permissions.push(p);
        proof {
            assert(permission_views(permissions@) =~= permission_views(had).push(p@));
        }
        i = i + 1;
    }
    Ok(permissions)
}

/// Reads a certificate that the authority must have issued to `peer`, or to whom it names.
fn read_state_certificate(
    r: &mut Reader,
    trust: &Trust,
    peer: Option<EndpointId>,
    now: u64,
) -> (c: Result<Certificate, Error>)
    requires
        old(r).wf(),
    ensures
        final(r).wf(),
        match take_state_certificate(
            old(r)@,
            trust@,
            match peer {
                Some(id) => Some(id@),
                None => None,
            },
            now,
        ) {
            Ok((v, rest)) => c is Ok && c->Ok_0@ == v && final(r)@ == rest,
            Err(e) => c is Err && c->Err_0 == e,
        },
{
    let bytes = r.bytes(MAX_CERT)?;
    let certificate = Certificate::from_bytes(bytes)?;
    let holder = match peer {
        Some(id) => id,
        None => certificate.endpoint_id(),
    };
    match trust.verify(&certificate, holder, now) {
        Ok(()) => Ok(certificate),
        Err(Error::CertificateExpired) => Ok(certificate),
        Err(e) => Err(e),
    }
}

fn read_redeemed<P>(r: &mut Reader, count: usize, trust: &Trust, now: u64) -> (v: Result<
    OrderedMap<EndpointId, Redemption<P>>,
    Error,
>)
    requires
        old(r).wf(),
    ensures
        final(r).wf(),
        match take_fold(
            old(r)@,
            count as nat,
            Map::<Seq<u8>, CertificateView>::empty(),
            redeemed_gather(trust@, now),
        ) {
            Ok((m, rest)) => v is Ok && v->Ok_0@ == m && final(r)@ == rest,
            Err(e) => v is Err && v->Err_0 == e,
        },
{
    let ghost start = r@;
    let ghost gather = redeemed_gather(trust@, now);
    let ghost none = Map::<Seq<u8>, CertificateView>::empty();
    let mut redeemed: OrderedMap<EndpointId, Redemption<P>> = OrderedMap::new();
    let mut i: usize = 0;
    while i < count
        invariant
            i <= count,
            r.wf(),
            gather == redeemed_gather(trust@, now),
            none == Map::<Seq<u8>, CertificateView>::empty(),
            start == old(r)@,
            take_fold(start, i as nat, none, gather) == Ok::<
                (Map<Seq<u8>, CertificateView>, Seq<u8>),
                Error,
            >((redeemed@, r@)),
        decreases count - i,
    {
        proof {
            assert(take_fold(start, (i + 1) as nat, none, gather) == gather_redeemed(
                redeemed@,
                r@,
                trust@,
                now,
            ));
            if gather_redeemed(redeemed@, r@, trust@, now) is Err {
                lemma_take_fold_error(start, (i + 1) as nat, count as nat, none, gather);
            }
        }
        r.array(2)?;
        let peer = read_endpoint(r)?;
        let certificate = read_state_certificate(r, trust, Some(peer), now)?;
        if redeemed.contains_key(&peer) {
            return Err(Error::Protocol("duplicate persisted endpoint"));
        }
        redeemed.insert(peer, Redemption { certificate, metering: None });
        i = i + 1;
    }
    Ok(redeemed)
}

fn read_options(r: &mut Reader) -> (v: Result<JoinOptions, Error>)
    requires
        old(r).wf(),
    ensures
        final(r).wf(),
        match take_options(old(r)@) {
            Ok((o, rest)) => v is Ok && v->Ok_0@ == o && final(r)@ == rest,
            Err(e) => v is Err && v->Err_0 == e,
        },
{
    let lifetime: u64 = r.u()?;
    let certificate_lifetime: u64 = r.u()?;
    let max_uses: u64 = r.u()?;
    if max_uses > usize::MAX as u64 {
        return Err(Error::Protocol("persistent max uses"));
    }
    r.array(2)?;
    let max_payload: u64 = r.u()?;
    let max_subscriptions: u64 = r.u()?;
    let count: usize = r.list(MAX_PERMISSIONS)?;
    let permissions = read_state_permissions(r, count)?;
    let options = JoinOptions {
        permissions,
        limits: CertificateLimits { max_payload, max_subscriptions },
        lifetime: Duration::from_secs(lifetime),
        certificate_lifetime: Duration::from_secs(certificate_lifetime),
        max_uses: max_uses as usize,
    };
    options.validate()?;
    Ok(options)
}

/// Whether no code is accounted for yet.
spec fn codes_unmetered<P>(m: OrderedMap<Id, Grant<P>>) -> bool {
    forall|i: int| 0 <= i < m.items().len() ==> (#[trigger] m.items()[i]).1.memory is None
}

/// Whether no member is accounted for yet.
spec fn members_unmetered<P>(m: OrderedMap<Id, Member<P>>) -> bool {
    forall|i: int| 0 <= i < m.items().len() ==> (#[trigger] m.items()[i]).1.memory is None
}

impl<P> Host<P> {
    /// Whether no code and no member is accounted for yet.
    pub closed spec fn unmetered(&self) -> bool {
        codes_unmetered(self.codes) && members_unmetered(self.members)
    }

    fn read_codes(r: &mut Reader, count: usize, trust: &Trust, now: u64) -> (v: Result<
        OrderedMap<Id, Grant<P>>,
        Error,
    >)
        requires
            old(r).wf(),
        ensures
            final(r).wf(),
            match take_fold(
                old(r)@,
                count as nat,
                Map::<Seq<u8>, GrantView>::empty(),
                grant_gather(trust@, now),
            ) {
                Ok((m, rest)) => v is Ok && v->Ok_0@ == m && final(r)@ == rest,
                Err(e) => v is Err && v->Err_0 == e,
            },
            v matches Ok(codes) ==> codes_unmetered(codes),
    {
        let ghost start = r@;
        let ghost gather = grant_gather(trust@, now);
        let ghost none = Map::<Seq<u8>, GrantView>::empty();
        let mut codes: OrderedMap<Id, Grant<P>> = OrderedMap::new();
        let mut i: usize = 0;
        while i < count
            invariant
                i <= count,
                r.wf(),
                gather == grant_gather(trust@, now),
                none == Map::<Seq<u8>, GrantView>::empty(),
                start == old(r)@,
                take_fold(start, i as nat, none, gather) == Ok::<
                    (Map<Seq<u8>, GrantView>, Seq<u8>),
                    Error,
                >((codes@, r@)),
                codes_unmetered(codes),
            decreases count - i,
        {
            proof {
                assert(take_fold(start, (i + 1) as nat, none, gather) == gather_grant(
                    codes@,
                    r@,
                    trust@,
                    now,
                ));
                if gather_grant(codes@, r@, trust@, now) is Err {
                    lemma_take_fold_error(start, (i + 1) as nat, count as nat, none, gather);
                }
            }
            r.array(9)?;
            let id: Id = r.fixed()?;
            let hash: [u8; 32] = r.fixed()?;
            let expires: u64 = r.u()?;
            let options = read_options(r)?;
            let uses: usize = r.list(MAX_LISTED)?;
            let redeemed = read_redeemed(r, uses, trust, now)?;
            if redeemed.len() > options.max_uses || codes.contains_key(&id) {
                return Err(Error::Protocol("duplicate or overused persisted code"));
            }
            codes.insert(id, Grant { hash, expires, options, redeemed, memory: None });
            i = i + 1;
        }
        Ok(codes)
    }

    fn read_members(r: &mut Reader, count: usize, trust: &Trust, now: u64) -> (v: Result<
        OrderedMap<Id, Member<P>>,
        Error,
    >)
        requires
            old(r).wf(),
        ensures
            final(r).wf(),
            match take_fold(
                old(r)@,
                count as nat,
                Map::<Seq<u8>, CertificateView>::empty(),
                member_gather(trust@, now),
            ) {
                Ok((m, rest)) => v is Ok && v->Ok_0@ == m && final(r)@ == rest,
                Err(e) => v is Err && v->Err_0 == e,
            },
            v matches Ok(members) ==> members_unmetered(members),
    {
        let ghost start = r@;
        let ghost gather = member_gather(trust@, now);
        let ghost none = Map::<Seq<u8>, CertificateView>::empty();
        let mut members: OrderedMap<Id, Member<P>> = OrderedMap::new();
        let mut i: usize = 0;
        while i < count
            invariant
                i <= count,
                r.wf(),
                gather == member_gather(trust@, now),
                none == Map::<Seq<u8>, CertificateView>::empty(),
                start == old(r)@,
                take_fold(start, i as nat, none, gather) == Ok::<
                    (Map<Seq<u8>, CertificateView>, Seq<u8>),
                    Error,
                >((members@, r@)),
                members_unmetered(members),
            decreases count - i,
        {
            proof {
                assert(take_fold(start, (i + 1) as nat, none, gather) == gather_member(
                    members@,
                    r@,
                    trust@,
                    now,
                ));
                if gather_member(members@, r@, trust@, now) is Err {
                    lemma_take_fold_error(start, (i + 1) as nat, count as nat, none, gather);
                }
            }
            let certificate = read_state_certificate(r, trust, None, now)?;
            let id = certificate.id();
            if members.contains_key(&id) {
                return Err(Error::Protocol("duplicate persisted certificate"));
            }
            members.insert(id, Member { certificate, memory: None, metering: None });
            i = i + 1;
        }
        Ok(members)
    }

    /// Reads a host's state back. Certificates may have run out since, but must be the
    /// authority's.
    pub fn decode(bytes: &[u8], storage: Option<Arc<dyn HostStorage>>, now: u64) -> (v: Result<
        Host<P>,
        Error,
    >)
        ensures
            match host_of(bytes@, now) {
                Ok(h) => v is Ok && v->Ok_0@ == h && v->Ok_0.stored() == storage is Some
                    && v->Ok_0.saves().len() == 0 && v->Ok_0.unmetered(),
                Err(e) => v is Err && v->Err_0 == e,
            },
    {
        if bytes.len() > MAX_STATE {
            return Err(Error::MessageTooLarge);
        }
        let mut r = Reader::new(bytes);
        r.array(6)?;
        let version: u64 = r.u()?;
        if version != 1 {
            return Err(Error::Protocol("persistent-state version"));
        }
        let secret: [u8; 32] = r.fixed()?;
        let realm: Id = r.fixed()?;
        let authority = Authority::from_parts(&secret, realm);
        let trust = authority.trust();
        let code_count: usize = r.list(MAX_LISTED)?;
        let codes = Host::read_codes(&mut r, code_count, &trust, now)?;
        let member_count: usize = r.list(MAX_LISTED)?;
        let members = Host::read_members(&mut r, member_count, &trust, now)?;
        r.list(0)?;
        r.end()?;
        let storage = match storage {
            Some(storage) => Some(Ledger::new(storage)),
            None => None,
        };
        let host = Host { authority, codes, members, storage };
        canonical(bytes, host.encode().as_slice())?;
        Ok(host)
    }
}

// The state survives

/// Whether a stored certificate is one that reading the state accepts: the authority's, for its
/// holder, though it may have run out.
pub open spec fn certificate_kept(
    c: CertificateView,
    t: TrustView,
    holder: Seq<u8>,
    now: u64,
) -> bool {
    &&& certificate_consistent(c)
    &&& match trust_verify(t, c, holder, now) {
        Ok(()) => true,
        Err(e) => e == Error::CertificateExpired,
    }
}

/// Whether a code can be stored as it is.
pub open spec fn grant_storable(id: Seq<u8>, g: GrantView, t: TrustView, now: u64) -> bool {
    &&& id.len() == 16
    &&& g.hash.len() == 32
    &&& options_valid(g.options)
    &&& g.options.lifetime % 1_000_000_000 == 0
    &&& g.options.certificate_lifetime % 1_000_000_000 == 0
    &&& forall|i: int|
        0 <= i < g.options.permissions.len() ==> {
            &&& valid_topic((#[trigger] g.options.permissions[i]).topic)
            &&& g.options.permissions[i].publish || g.options.permissions[i].subscribe
        }
    &&& g.redeemed.dom().finite()
    &&& g.redeemed.dom().len() <= g.options.max_uses
    &&& forall|peer: Seq<u8>| #[trigger]
        g.redeemed.contains_key(peer) ==> peer.len() == 32 && is_public_key(peer)
            && certificate_kept(g.redeemed[peer], t, peer, now)
}

/// Whether the whole state can be stored as it is.
pub open spec fn host_storable(h: HostView, now: u64) -> bool {
    let t = new_trust(h.authority.realm, public_key(h.authority.secret));
    &&& h.authority.secret.len() == 32
    &&& h.authority.realm.len() == 16
    &&& h.codes.dom().finite() && h.codes.dom().len() <= MAX_LISTED
    &&& h.members.dom().finite() && h.members.dom().len() <= MAX_LISTED
    &&& host_bytes(h).len() <= MAX_STATE
    &&& forall|id: Seq<u8>| #[trigger]
        h.codes.contains_key(id) ==> grant_storable(id, h.codes[id], t, now)
    &&& forall|id: Seq<u8>| #[trigger]
        h.members.contains_key(id) ==> id == h.members[id].claims.id && certificate_kept(
            h.members[id],
            t,
            h.members[id].claims.subject,
            now,
        )
}

proof fn lemma_take_state_certificate(
    c: CertificateView,
    t: TrustView,
    peer: Option<Seq<u8>>,
    now: u64,
    rest: Seq<u8>,
)
    requires
        certificate_kept(
            c,
            t,
            match peer {
                Some(peer) => peer,
                None => c.claims.subject,
            },
            now,
        ),
    ensures
        take_state_certificate(bytes_item(c.bytes) + rest, t, peer, now) == Ok::<
            (CertificateView, Seq<u8>),
            Error,
        >((c, rest)),
{
    lemma_take_bytes(c.bytes, MAX_CERT as nat, rest);
}

proof fn lemma_gather_redeemed(
    m: Map<Seq<u8>, CertificateView>,
    peer: Seq<u8>,
    c: CertificateView,
    t: TrustView,
    now: u64,
    rest: Seq<u8>,
)
    requires
        !m.contains_key(peer),
        peer.len() == 32,
        is_public_key(peer),
        certificate_kept(c, t, peer, now),
    ensures
        gather_redeemed(m, redeemed_bytes((peer, c)) + rest, t, now) == Ok::<
            (Map<Seq<u8>, CertificateView>, Seq<u8>),
            Error,
        >((m.insert(peer, c), rest)),
{
    let last = bytes_item(c.bytes);
    lemma_concat_assoc(array_head(2), bytes_item(peer) + last, rest);
    lemma_concat_assoc(bytes_item(peer), last, rest);
    lemma_take_array(2, 2, bytes_item(peer) + (last + rest));
    lemma_take_endpoint(peer, last + rest);
    lemma_take_state_certificate(c, t, Some(peer), now, rest);
}

proof fn lemma_take_state_permission(p: PermissionView, rest: Seq<u8>)
    requires
        valid_topic(p.topic),
        p.publish || p.subscribe,
    ensures
        take_state_permission(permission_bytes(p) + rest) == Ok::<(PermissionView, Seq<u8>), Error>(
            (p, rest),
        ),
{
    let last = uint_item(crate::auth::permission_mask(p));
    lemma_concat_assoc(array_head(2), text_item(p.topic) + last, rest);
    lemma_concat_assoc(text_item(p.topic), last, rest);
    lemma_take_array(2, 2, text_item(p.topic) + (last + rest));
    lemma_take_topic(p.topic, last + rest);
    lemma_take_u(crate::auth::permission_mask(p), rest);
}

proof fn lemma_take_options(o: OptionsView, rest: Seq<u8>)
    requires
        options_valid(o),
        o.lifetime % 1_000_000_000 == 0,
        o.certificate_lifetime % 1_000_000_000 == 0,
        forall|i: int|
            0 <= i < o.permissions.len() ==> {
                &&& valid_topic((#[trigger] o.permissions[i]).topic)
                &&& o.permissions[i].publish || o.permissions[i].subscribe
            },
    ensures
        take_options(options_bytes(o, rest)) == Ok::<(OptionsView, Seq<u8>), Error>((o, rest)),
{
    let put = permission_put();
    let take = state_permission_take();
    assert forall|i: int, s: Seq<u8>| 0 <= i < o.permissions.len() implies #[trigger] take(
        put(o.permissions[i]) + s,
    ) == Ok::<(PermissionView, Seq<u8>), Error>((o.permissions[i], s)) by {
        lemma_take_state_permission(o.permissions[i], s);
    }
    let lifetime = (o.lifetime / 1_000_000_000) as u64;
    let certificate_lifetime = (o.certificate_lifetime / 1_000_000_000) as u64;
    let count = o.permissions.len() as u64;
    let s5 = put_all(o.permissions, put) + rest;
    let s4 = array_head(count) + s5;
    let s3 = limits_bytes(o.limits) + s4;
    let s2 = uint_item(o.max_uses as u64) + s3;
    let s1 = uint_item(certificate_lifetime) + s2;
    lemma_take_u(lifetime, s1);
    lemma_take_u(certificate_lifetime, s2);
    lemma_take_u(o.max_uses as u64, s3);
    let a = uint_item(o.limits.max_payload);
    let b = uint_item(o.limits.max_subscriptions);
    lemma_concat_assoc(array_head(2), a + b, s4);
    lemma_concat_assoc(a, b, s4);
    lemma_take_array(2, 2, a + (b + s4));
    lemma_take_u(o.limits.max_payload, b + s4);
    lemma_take_u(o.limits.max_subscriptions, s4);
    lemma_take_list(count, MAX_PERMISSIONS as nat, s5);
    lemma_take_all(o.permissions, rest, put, take);
}

proof fn lemma_gather_grant(
    m: Map<Seq<u8>, GrantView>,
    id: Seq<u8>,
    g: GrantView,
    t: TrustView,
    now: u64,
    rest: Seq<u8>,
)
    requires
        !m.contains_key(id),
        grant_storable(id, g, t, now),
    ensures
        gather_grant(m, grant_bytes((id, g)) + rest, t, now) == Ok::<
            (Map<Seq<u8>, GrantView>, Seq<u8>),
            Error,
        >((m.insert(id, g), rest)),
{
    let list = redeemed_list(g);
    let put = redeemed_put();
    let gather = redeemed_gather(t, now);
    lemma_listing_exists::<EndpointId, CertificateView>(g.redeemed);
    assert forall|i: int, m: Map<Seq<u8>, CertificateView>, s: Seq<u8>|
        0 <= i < list.len() && !m.contains_key(list[i].0) implies #[trigger] gather(
        m,
        put(list[i]) + s,
    ) == Ok::<(Map<Seq<u8>, CertificateView>, Seq<u8>), Error>(
        (m.insert(list[i].0, list[i].1), s),
    ) by {
        lemma_pairs_map_index::<EndpointId, CertificateView>(list, i);
        assert(g.redeemed.contains_key(list[i].0));
        lemma_gather_redeemed(m, list[i].0, list[i].1, t, now, s);
    }
    lemma_take_fold_map::<EndpointId, CertificateView>(list, rest, put, gather);
    let count = list.len() as u64;
    let all = put_all(list, put);
    let tail = array_head(count) + all;
    let end = array_head(count) + (all + rest);
    let o = g.options;
    lemma_concat_assoc(array_head(count), all, rest);
    lemma_options_rest(o, tail, rest);
    lemma_concat_assoc(
        array_head(9),
        bytes_item(id) + (bytes_item(g.hash) + (uint_item(g.expires) + options_bytes(o, tail))),
        rest,
    );
    lemma_concat_assoc(
        bytes_item(id),
        bytes_item(g.hash) + (uint_item(g.expires) + options_bytes(o, tail)),
        rest,
    );
    lemma_concat_assoc(
        bytes_item(g.hash),
        uint_item(g.expires) + options_bytes(o, tail),
        rest,
    );
    lemma_concat_assoc(uint_item(g.expires), options_bytes(o, tail), rest);
    let s3 = uint_item(g.expires) + options_bytes(o, end);
    let s2 = bytes_item(g.hash) + s3;
    lemma_take_array(9, 9, bytes_item(id) + s2);
    lemma_take_fixed(id, 16, s2);
    lemma_take_fixed(g.hash, 32, s3);
    lemma_take_u(g.expires, options_bytes(o, end));
    lemma_take_options(o, end);
    lemma_take_list(count, MAX_LISTED as nat, all + rest);
}

proof fn lemma_options_rest(o: OptionsView, tail: Seq<u8>, rest: Seq<u8>)
    ensures
        options_bytes(o, tail) + rest == options_bytes(o, tail + rest),
{
    let lifetime = uint_item((o.lifetime / 1_000_000_000) as u64);
    let certificate_lifetime = uint_item((o.certificate_lifetime / 1_000_000_000) as u64);
    let uses = uint_item(o.max_uses as u64);
    let limits = limits_bytes(o.limits);
    let head = array_head(o.permissions.len() as u64);
    let all = put_all(o.permissions, permission_put());
    lemma_concat_assoc(
        lifetime,
        certificate_lifetime + (uses + (limits + (head + (all + tail)))),
        rest,
    );
    lemma_concat_assoc(certificate_lifetime, uses + (limits + (head + (all + tail))), rest);
    lemma_concat_assoc(uses, limits + (head + (all + tail)), rest);
    lemma_concat_assoc(limits, head + (all + tail), rest);
    lemma_concat_assoc(head, all + tail, rest);
    lemma_concat_assoc(all, tail, rest);
}

/// A host that is started again from the state that it stored is the host that it was.
pub proof fn law_state_round_trip(h: HostView, now: u64)
    requires
        host_storable(h, now),
    ensures
        host_of(host_bytes(h), now) == Ok::<HostView, Error>(h),
{
    let t = new_trust(h.authority.realm, public_key(h.authority.secret));
    let codes = code_list(h);
    let members = member_list(h);
    let grant = grant_gather(t, now);
    let member = member_gather(t, now);
    lemma_listing_exists::<Id, GrantView>(h.codes);
    lemma_listing_exists::<Id, CertificateView>(h.members);
    assert forall|i: int, m: Map<Seq<u8>, GrantView>, s: Seq<u8>|
        0 <= i < codes.len() && !m.contains_key(codes[i].0) implies #[trigger] grant(
        m,
        grant_put()(codes[i]) + s,
    ) == Ok::<(Map<Seq<u8>, GrantView>, Seq<u8>), Error>((m.insert(codes[i].0, codes[i].1), s)) by {
        lemma_pairs_map_index::<Id, GrantView>(codes, i);
        assert(h.codes.contains_key(codes[i].0));
        lemma_gather_grant(m, codes[i].0, codes[i].1, t, now, s);
    }
    assert forall|i: int, m: Map<Seq<u8>, CertificateView>, s: Seq<u8>|
        0 <= i < members.len() && !m.contains_key(members[i].0) implies #[trigger] member(
        m,
        member_put()(members[i]) + s,
    ) == Ok::<(Map<Seq<u8>, CertificateView>, Seq<u8>), Error>(
        (m.insert(members[i].0, members[i].1), s),
    ) by {
        lemma_pairs_map_index::<Id, CertificateView>(members, i);
        assert(h.members.contains_key(members[i].0));
        lemma_take_state_certificate(members[i].1, t, None, now, s);
    }
    let end = array_head(0);
    let s6 = put_all(members, member_put()) + end;
    let s5 = array_head(members.len() as u64) + s6;
    let s4 = put_all(codes, grant_put()) + s5;
    let s3 = array_head(codes.len() as u64) + s4;
    let s2 = bytes_item(h.authority.realm) + s3;
    let s1 = bytes_item(h.authority.secret) + s2;
    lemma_take_array(6, 6, uint_item(1) + s1);
    lemma_take_u(1, s1);
    lemma_take_fixed(h.authority.secret, 32, s2);
    lemma_take_fixed(h.authority.realm, 16, s3);
    lemma_take_list(codes.len() as u64, MAX_LISTED as nat, s4);
    lemma_take_fold_map::<Id, GrantView>(codes, s5, grant_put(), grant);
    lemma_take_list(members.len() as u64, MAX_LISTED as nat, s6);
    lemma_take_fold_map::<Id, CertificateView>(members, end, member_put(), member);
    lemma_nothing_after(end);
    lemma_take_list(0, 0, Seq::empty());
}

/// State that is accepted is the one way to write what it says.
pub proof fn law_state_canonical(b: Seq<u8>, now: u64)
    ensures
        host_of(b, now) matches Ok(h) ==> host_bytes(h) == b,
{
}

proof fn lemma_read_certificate(s: Seq<u8>, t: TrustView, peer: Option<Seq<u8>>, now: u64)
    ensures
        take_state_certificate(s, t, peer, now) matches Ok((c, _)) ==> certificate_kept(
            c,
            t,
            match peer {
                Some(peer) => peer,
                None => c.claims.subject,
            },
            now,
        ),
{
    reveal(take_bytes);
}

proof fn lemma_read_redeemed(s: Seq<u8>, n: nat, t: TrustView, now: u64)
    ensures
        take_fold(
            s,
            n,
            Map::<Seq<u8>, CertificateView>::empty(),
            redeemed_gather(t, now),
        ) matches Ok((m, _)) ==> {
            &&& m.dom().finite()
            &&& forall|peer: Seq<u8>| #[trigger]
                m.contains_key(peer) ==> peer.len() == 32 && is_public_key(peer)
                    && certificate_kept(m[peer], t, peer, now)
        },
    decreases n,
{
    if n > 0 {
        let l = (n - 1) as nat;
        let none = Map::<Seq<u8>, CertificateView>::empty();
        lemma_read_redeemed(s, l, t, now);
        if let Ok((m, s1)) = take_fold(s, l, none, redeemed_gather(t, now)) {
            if let Ok(s2) = take_array(s1, 2) {
                if let Ok((peer, s3)) = take_endpoint(s2) {
                    reveal(take_fixed);
                    lemma_read_certificate(s3, t, Some(peer), now);
                }
            }
        }
    }
}

proof fn lemma_read_permissions(s: Seq<u8>, n: nat)
    ensures
        take_all(s, n, state_permission_take()) matches Ok((ps, _)) ==> ps.len() == n && forall|
            i: int,
        |
            0 <= i < ps.len() ==> {
                &&& valid_topic((#[trigger] ps[i]).topic)
                &&& ps[i].publish || ps[i].subscribe
            },
    decreases n,
{
    if n > 0 {
        lemma_read_permissions(s, (n - 1) as nat);
    }
}

/// Whether options that were read are as they are written.
spec fn options_read(o: OptionsView) -> bool {
    &&& options_valid(o)
    &&& o.lifetime % 1_000_000_000 == 0
    &&& o.certificate_lifetime % 1_000_000_000 == 0
    &&& forall|i: int|
        0 <= i < o.permissions.len() ==> {
            &&& valid_topic((#[trigger] o.permissions[i]).topic)
            &&& o.permissions[i].publish || o.permissions[i].subscribe
        }
}

proof fn lemma_read_options(s: Seq<u8>)
    ensures
        take_options(s) matches Ok((o, _)) ==> options_read(o),
{
    if let Ok((lifetime, s1)) = take_u(s) {
        if let Ok((certificate_lifetime, s2)) = take_u(s1) {
            if let Ok((max_uses, s3)) = take_u(s2) {
                if let Ok(s4) = take_array(s3, 2) {
                    if let Ok((max_payload, s5)) = take_u(s4) {
                        if let Ok((max_subscriptions, s6)) = take_u(s5) {
                            if let Ok((count, s7)) = take_list(s6, MAX_PERMISSIONS as nat) {
                                lemma_read_permissions(s7, count);
                            }
                        }
                    }
                }
            }
        }
    }
}

proof fn lemma_read_grants(s: Seq<u8>, n: nat, t: TrustView, now: u64)
    ensures
        take_fold(
            s,
            n,
            Map::<Seq<u8>, GrantView>::empty(),
            grant_gather(t, now),
        ) matches Ok((m, _)) ==> {
            &&& m.dom().finite()
            &&& m.dom().len() == n
            &&& forall|id: Seq<u8>| #[trigger]
                m.contains_key(id) ==> grant_storable(id, m[id], t, now)
        },
    decreases n,
{
    let none = Map::<Seq<u8>, GrantView>::empty();
    if n > 0 {
        let l = (n - 1) as nat;
        lemma_read_grants(s, l, t, now);
        if let Ok((m, s1)) = take_fold(s, l, none, grant_gather(t, now)) {
            lemma_read_grant(m, s1, t, now);
        }
    }
}

proof fn lemma_read_grant(m: Map<Seq<u8>, GrantView>, s: Seq<u8>, t: TrustView, now: u64)
    requires
        m.dom().finite(),
        forall|id: Seq<u8>| #[trigger] m.contains_key(id) ==> grant_storable(id, m[id], t, now),
    ensures
        gather_grant(m, s, t, now) matches Ok((after, _)) ==> {
            &&& after.dom().finite()
            &&& after.dom().len() == m.dom().len() + 1
            &&& forall|id: Seq<u8>| #[trigger]
                after.contains_key(id) ==> grant_storable(id, after[id], t, now)
        },
{
    if let Ok((after, _)) = gather_grant(m, s, t, now) {
        let s1 = take_array(s, 9)->Ok_0;
        let (id, s2) = take_fixed(s1, 16)->Ok_0;
        let (hash, s3) = take_fixed(s2, 32)->Ok_0;
        let (expires, s4) = take_u(s3)->Ok_0;
        let (options, s5) = take_options(s4)->Ok_0;
        let (count, s6) = take_list(s5, MAX_LISTED as nat)->Ok_0;
        lemma_read_options(s4);
        lemma_read_redeemed(s6, count, t, now);
        assert(id.len() == 16 && hash.len() == 32) by {
            reveal(take_fixed);
        }
        assert(after.dom() =~= m.dom().insert(id));
        assert(grant_storable(id, after[id], t, now));
    }
}

proof fn lemma_read_members(s: Seq<u8>, n: nat, t: TrustView, now: u64)
    ensures
        take_fold(
            s,
            n,
            Map::<Seq<u8>, CertificateView>::empty(),
            member_gather(t, now),
        ) matches Ok((m, _)) ==> {
            &&& m.dom().finite()
            &&& m.dom().len() == n
            &&& forall|id: Seq<u8>| #[trigger]
                m.contains_key(id) ==> id == m[id].claims.id && certificate_kept(
                    m[id],
                    t,
                    m[id].claims.subject,
                    now,
                )
        },
    decreases n,
{
    let none = Map::<Seq<u8>, CertificateView>::empty();
    if n > 0 {
        let l = (n - 1) as nat;
        lemma_read_members(s, l, t, now);
        if let Ok((m, s1)) = take_fold(s, l, none, member_gather(t, now)) {
            lemma_read_certificate(s1, t, None, now);
            if let Ok((c, s2)) = take_state_certificate(s1, t, None, now) {
                if !m.contains_key(c.claims.id) {
                    assert(m.insert(c.claims.id, c).dom() =~= m.dom().insert(c.claims.id));
                }
            }
        }
    }
}

/// State that is accepted keeps the rules: it lists no more codes and members than it may, what is
/// attached to each code is valid, no code admitted more endpoints than it may, and every
/// certificate is the authority's, for its holder, though it may have run out. So it can be stored
/// as it is.
pub proof fn law_state_keeps_the_rules(b: Seq<u8>, now: u64)
    ensures
        host_of(b, now) matches Ok(h) ==> host_storable(h, now),
{
    if let Ok(h) = host_of(b, now) {
        let s1 = take_array(b, 6)->Ok_0;
        let (version, s2) = take_u(s1)->Ok_0;
        let (secret, s3) = take_fixed(s2, 32)->Ok_0;
        let (realm, s4) = take_fixed(s3, 16)->Ok_0;
        let t = new_trust(realm, public_key(secret));
        let (count, s5) = take_list(s4, MAX_LISTED as nat)->Ok_0;
        lemma_read_grants(s5, count, t, now);
        let (codes, s6) = take_fold(
            s5,
            count,
            Map::<Seq<u8>, GrantView>::empty(),
            grant_gather(t, now),
        )->Ok_0;
        let (listed, s7) = take_list(s6, MAX_LISTED as nat)->Ok_0;
        lemma_read_members(s7, listed, t, now);
        assert(secret.len() == 32 && realm.len() == 16) by {
            reveal(take_fixed);
        }
        assert(count <= MAX_LISTED && listed <= MAX_LISTED) by {
            reveal(take_list);
        }
        law_state_canonical(b, now);
    }
}

// Admission

/// Where reservations of memory come from. `P` releases what it stands for when it is dropped.
pub trait Meter<P> {
    fn reserve(&mut self, n: usize) -> Result<P, Error>;
}

/// What the records of a list of permissions cost.
pub open spec fn permissions_charge(ps: Seq<PermissionView>) -> nat
    decreases ps.len(),
{
    if ps.len() == 0 {
        0
    } else {
        permissions_charge(ps.drop_last()) + encode_utf8(ps.last().topic).len() + 128
    }
}

/// What keeping a code costs.
pub open spec fn grant_charge(o: OptionsView) -> nat {
    1024 + permissions_charge(o.permissions)
}

/// What keeping a member costs.
pub const MEMBER_CHARGE: usize = 1024;

/// What keeping a code with these options costs.
fn charge_of_grant(options: &JoinOptions) -> (n: usize)
    requires
        options.permissions@.len() <= MAX_PERMISSIONS,
    ensures
        n == grant_charge(options@),
{
    let ghost views = options@.permissions;
    let mut n: usize = 1024;
    let mut i: usize = 0;
    assert(views.take(0) =~= Seq::<PermissionView>::empty());
    while i < options.permissions.len()
        invariant
            i <= options.permissions.len() <= MAX_PERMISSIONS,
            views == permission_views(options.permissions@),
            n == 1024 + permissions_charge(views.take(i as int)),
            n <= 1024 + 384 * i,
        decreases options.permissions.len() - i,
    {
        let p = &options.permissions[i];
        proof {
            use_type_invariant(&p.topic);
            let next = views.take(i + 1);
            assert(next.drop_last() =~= views.take(i as int));
            assert(next.last() == p@);
        }
        n = n + p.topic.as_str().as_bytes().len() + 128;
        i = i + 1;
    }
    assert(views.take(i as int) =~= views);
    n
}

/// Whether a code may be given out, and what keeping it costs. The certificate that it will bring
/// is tried out first, under the identifier `trial`.
pub open spec fn code_review(
    h: HostView,
    o: OptionsView,
    a: AddressView,
    now: u64,
    max_codes: nat,
    trial: Seq<u8>,
) -> Result<nat, Error> {
    let expires = now + o.certificate_lifetime / 1_000_000_000;
    if !options_valid(o) {
        Err(Error::Config("invalid join code limits"))
    } else if h.codes.dom().len() >= max_codes {
        Err(Error::QueueFull)
    } else {
        match issued(h.authority, trial, a.id, o.permissions, now, expires as u64, o.limits) {
            Err(e) => Err(e),
            Ok(_) => Ok(grant_charge(o)),
        }
    }
}

/// A code that has just been given out.
pub open spec fn fresh_grant(o: OptionsView, now: u64, secret: Seq<u8>) -> GrantView {
    GrantView {
        hash: sha256(secret),
        expires: (now + o.lifetime / 1_000_000_000) as u64,
        options: o,
        redeemed: Map::empty(),
    }
}

/// The state with a new code.
pub open spec fn code_added(h: HostView, o: OptionsView, now: u64, secret: Seq<u8>) -> HostView {
    HostView { codes: h.codes.insert(code_id(secret), fresh_grant(o, now, secret)), ..h }
}

/// The state without the code `id`.
pub open spec fn code_removed(h: HostView, id: Seq<u8>) -> HostView {
    HostView { codes: h.codes.remove(id), ..h }
}

/// The state without the members whose certificates have run out.
pub open spec fn members_current(h: HostView, now: u64) -> HostView {
    HostView {
        members: kept(h.members, |id: Seq<u8>, c: CertificateView| now < c.claims.expires),
        ..h
    }
}

/// What a host makes of a request before it issues anything: an error, the enrollment that it
/// granted before, or nothing yet.
pub open spec fn enrollment_review(
    h: HostView,
    peer: Seq<u8>,
    id: Seq<u8>,
    secret: Seq<u8>,
    now: u64,
    trust: TrustView,
    max_members: nat,
) -> Result<Option<EnrollmentView>, Error> {
    let members = members_current(h, now).members;
    if !h.codes.contains_key(id) {
        Err(Error::Unauthorized)
    } else {
        let g = h.codes[id];
        let room: Result<Option<EnrollmentView>, Error> = if members.dom().len() >= max_members {
            Err(Error::QueueFull)
        } else {
            Ok(None)
        };
        if g.expires <= now || g.hash != sha256(secret) {
            Err(Error::Unauthorized)
        } else if g.redeemed.contains_key(peer) {
            let c = g.redeemed[peer];
            match trust_check(trust, c.claims, peer, now) {
                Ok(()) => if now < c.claims.expires {
                    Ok(
                        Some(
                            EnrollmentView {
                                trust: new_trust(
                                    h.authority.realm,
                                    public_key(h.authority.secret),
                                ),
                                expires: g.expires,
                                certificate: c,
                            },
                        ),
                    )
                } else {
                    room
                },
                Err(Error::CertificateExpired) => room,
                Err(e) => Err(e),
            }
        } else if g.redeemed.dom().len() >= g.options.max_uses {
            Err(Error::QueueFull)
        } else {
            room
        }
    }
}

/// The certificate that a code brings to `peer`, under the identifier `certificate_id`. It never
/// outlives the host's own.
pub open spec fn enrollment_certificate(
    h: HostView,
    peer: Seq<u8>,
    id: Seq<u8>,
    now: u64,
    host_expires: u64,
    certificate_id: Seq<u8>,
) -> Result<CertificateView, Error> {
    let o = h.codes[id].options;
    let until = now + o.certificate_lifetime / 1_000_000_000;
    let expires = if until < host_expires {
        until as u64
    } else {
        host_expires
    };
    issued(h.authority, certificate_id, peer, o.permissions, now, expires, o.limits)
}

/// The state in which `peer` was admitted through the code `id`.
pub open spec fn peer_admitted(
    h: HostView,
    peer: Seq<u8>,
    id: Seq<u8>,
    c: CertificateView,
) -> HostView {
    let g = h.codes[id];
    HostView {
        codes: h.codes.insert(
            id,
            GrantView { redeemed: g.redeemed.insert(peer, c), ..g },
        ),
        members: h.members.insert(c.claims.id, c),
        ..h
    }
}

/// Whether `saved` is what is handed to storage where the state is to be kept: the whole state, once,
/// if there is storage and the state is not too long for it.
pub open spec fn handed_over(h: HostView, stored: bool, saved: Seq<SavedView>) -> bool {
    if stored && host_bytes(h).len() <= MAX_STATE {
        saved.len() == 1 && saved[0].bytes == host_bytes(h)
    } else {
        saved.len() == 0
    }
}

/// What comes of keeping the state: the answer of storage, if it was asked.
pub open spec fn storing(h: HostView, stored: bool, saved: Seq<SavedView>) -> Result<(), Error> {
    if !stored {
        Ok(())
    } else if host_bytes(h).len() > MAX_STATE {
        Err(Error::MessageTooLarge)
    } else {
        saved[0].result
    }
}

impl<P> Host<P> {
    /// The bytes that storage is to hold, if there is storage.
    pub fn state_to_save(&self) -> (r: Result<Option<Vec<u8>>, Error>)
        ensures
            match r {
                Ok(None) => !self.stored(),
                Ok(Some(b)) => self.stored() && b@ == host_bytes(self@) && b@.len() <= MAX_STATE,
                Err(e) => self.stored() && host_bytes(self@).len() > MAX_STATE && e
                    == Error::MessageTooLarge,
            },
    {
        if self.storage.is_none() {
            return Ok(None);
        }
        let bytes = self.encode();
        if bytes.len() > MAX_STATE {
            return Err(Error::MessageTooLarge);
        }
        Ok(Some(bytes))
    }

    /// Hands the state to storage, if there is storage and the state is not too long for it.
    fn persist(&mut self) -> (r: Result<(), Error>)
        ensures
            final(self)@ == old(self)@,
            final(self).stored() == old(self).stored(),
            old(self).saves().is_prefix_of(final(self).saves()),
            handed_over(
                old(self)@,
                old(self).stored(),
                since(old(self).saves(), final(self).saves()),
            ),
            r == storing(
                old(self)@,
                old(self).stored(),
                since(old(self).saves(), final(self).saves()),
            ),
    {
        let ghost before = self.saves();
        assert(since(before, before) =~= Seq::empty());
        match self.state_to_save()? {
            None => Ok(()),
            Some(bytes) => match &mut self.storage {
                Some(storage) => {
                    let r = storage.save(bytes.as_slice());
                    let ghost entry = SavedView { bytes: bytes@, result: r };
                    assert(since(before, before.push(entry)) =~= seq![entry]);
                    r
                },
                None => Ok(()),
            },
        }
    }

    /// Whether a code may be given out, and what keeping it costs.
    pub fn review_code(
        &self,
        options: &JoinOptions,
        address: &EndpointAddr,
        now: u64,
        max_codes: usize,
        trial: Id,
    ) -> (r: Result<usize, Error>)
        requires
            now + MAX_JOIN_SECS <= u64::MAX,
        ensures
            match code_review(self@, options@, address@, now, max_codes as nat, trial@) {
                Ok(n) => r is Ok && r->Ok_0 == n,
                Err(e) => r is Err && r->Err_0 == e,
            },
    {
        options.validate()?;
        if self.codes.len() >= max_codes {
            return Err(Error::QueueFull);
        }
        self.authority.issue_as(
            trial,
            address.id(),
            copy_permissions(&options.permissions),
            now,
            now + options.certificate_lifetime.as_secs(),
            options.limits,
        )?;
        Ok(charge_of_grant(options))
    }

    /// Gives out the code with the given secret.
    pub fn add_code(
        &mut self,
        options: JoinOptions,
        address: &EndpointAddr,
        now: u64,
        memory: P,
        secret: [u8; 32],
    ) -> (r: Result<JoinCode, Error>)
        requires
            now + MAX_JOIN_SECS <= u64::MAX,
            options_valid(options@),
        ensures
            final(self).stored() == old(self).stored(),
            final(self).saves() == old(self).saves(),
            ({
                let code = CodeView { address: compact(address@), secret: secret@ };
                match code_text(code) {
                    Ok(_) => r is Ok && r->Ok_0@ == code && final(self)@ == code_added(
                        old(self)@,
                        options@,
                        now,
                        secret@,
                    ),
                    Err(e) => r is Err && r->Err_0 == e && final(self)@ == old(self)@,
                }
            }),
    {
        let expires: u64 = now + options.lifetime.as_secs();
        let code = JoinCode::from_parts(address.compact(), secret);
        code.encode()?;
        self.codes.insert(
            code.id(),
            Grant {
                hash: digest(&secret),
                expires,
                options,
                redeemed: OrderedMap::new(),
                memory: Some(memory),
            },
        );
        Ok(code)
    }

    /// Takes the code `id` back if storing it failed.
    pub fn settle_code(&mut self, id: &Id, saved: Result<(), Error>) -> (r: Result<(), Error>)
        ensures
            r == saved,
            final(self).stored() == old(self).stored(),
            final(self).saves() == old(self).saves(),
            final(self)@ == match saved {
                Ok(()) => old(self)@,
                Err(_) => code_removed(old(self)@, id@),
            },
    {
        if saved.is_err() {
            self.codes.remove(id);
        }
        saved
    }

    /// Judges a request for admission, after members whose certificates have run out are dropped.
    pub fn review_enrollment(
        &mut self,
        peer: EndpointId,
        id: &Id,
        secret: &[u8; 32],
        now: u64,
        trust: &Trust,
        max_members: usize,
    ) -> (r: Result<Option<Enrollment>, Error>)
        ensures
            final(self).stored() == old(self).stored(),
            final(self).saves() == old(self).saves(),
            final(self)@ == members_current(old(self)@, now),
            match enrollment_review(
                old(self)@,
                peer@,
                id@,
                secret@,
                now,
                trust@,
                max_members as nat,
            ) {
                Ok(None) => r is Ok && r->Ok_0 is None && old(self)@.codes.contains_key(id@),
                Ok(Some(e)) => r is Ok && r->Ok_0 is Some && r->Ok_0->0@ == e,
                Err(e) => r is Err && r->Err_0 == e,
            },
    {
        self.drop_members(now);
        let grant = match self.codes.get(id) {
            Some(grant) => grant,
            None => return Err(Error::Unauthorized),
        };
        if grant.expires <= now || !same_bytes(&grant.hash, &digest(secret)) {
            return Err(Error::Unauthorized);
        }
        match grant.redeemed.get(&peer) {
            Some(redemption) => match trust.check(&redemption.certificate, peer, now) {
                Ok(()) => {
                    if now < redemption.certificate.expires_at() {
                        return Ok(
                            Some(
                                Enrollment {
                                    trust: self.authority.trust(),
                                    expires: grant.expires,
                                    certificate: redemption.certificate.clone(),
                                },
                            ),
                        );
                    }
                },
                Err(Error::CertificateExpired) => {},
                Err(e) => return Err(e),
            },
            None => {
                if grant.redeemed.len() >= grant.options.max_uses {
                    return Err(Error::QueueFull);
                }
            },
        }
        if self.members.len() >= max_members {
            return Err(Error::QueueFull);
        }
        Ok(None)
    }

    fn drop_members(&mut self, now: u64)
        ensures
            final(self).stored() == old(self).stored(),
            final(self).saves() == old(self).saves(),
            final(self)@ == members_current(old(self)@, now),
    {
        let ghost keep = |id: Seq<u8>, c: CertificateView| now < c.claims.expires;
        let current = |id: &Id, m: &Member<P>| -> (b: bool)
            ensures
                b == (now < m@.claims.expires),
            { now < m.certificate.expires_at() };
        self.members.retain(current, Ghost(keep));
    }
}

impl<P> Host<P> {
    /// Issues the certificate that a code brings.
    pub fn issue_for(
        &self,
        peer: EndpointId,
        id: &Id,
        now: u64,
        host_expires: u64,
        certificate_id: Id,
    ) -> (r: Result<Certificate, Error>)
        requires
            self@.codes.contains_key(id@),
        ensures
            certificate_outcome(r) == enrollment_certificate(
                self@,
                peer@,
                id@,
                now,
                host_expires,
                certificate_id@,
            ),
            r matches Ok(c) ==> c@.claims.id == certificate_id@ && c@.claims.subject == peer@,
    {
        match self.codes.get(id) {
            Some(grant) => {
                proof {
                    use_type_invariant(grant);
                }
                let until: u64 = now.saturating_add(grant.options.certificate_lifetime.as_secs());
                let expires: u64 = if until < host_expires { until } else { host_expires };
                self.authority.issue_as(
                    certificate_id,
                    peer,
                    copy_permissions(&grant.options.permissions),
                    now,
                    expires,
                    grant.options.limits,
                )
            },
            None => Err(Error::Unauthorized),
        }
    }

    /// Admits `peer` through the code `id`, and hands back the certificate that it had through it
    /// before.
    pub fn record(
        &mut self,
        peer: EndpointId,
        id: Id,
        certificate: &Certificate,
        memory: P,
        metering: P,
    ) -> (previous: Option<Redemption<P>>)
        requires
            old(self)@.codes.contains_key(id@),
        ensures
            final(self).stored() == old(self).stored(),
            final(self).saves() == old(self).saves(),
            final(self)@ == peer_admitted(old(self)@, peer@, id@, certificate@),
            match previous {
                Some(c) => old(self)@.codes[id@].redeemed.contains_key(peer@) && c@ == old(self)@.codes[id@].redeemed[peer@],
                None => !old(self)@.codes[id@].redeemed.contains_key(peer@),
            },
    {
        let metering = Arc::new(metering);
        self.members.insert(
            certificate.id(),
            Member {
                certificate: certificate.clone(),
                memory: Some(memory),
                metering: Some(metering.clone()),
            },
        );
        let ghost h = self@;
        match self.codes.remove(&id) {
            Some(grant) => {
                proof {
                    use_type_invariant(&grant);
                }
                let Grant { hash, expires, options, mut redeemed, memory } = grant;
                let redemption = Redemption {
                    certificate: certificate.clone(),
                    metering: Some(metering),
                };
                let previous = redeemed.insert(peer, redemption);
                self.codes.insert(id, Grant { hash, expires, options, redeemed, memory });
                proof {
                    assert(self@.codes =~= peer_admitted(
                        old(self)@,
                        peer@,
                        id@,
                        certificate@,
                    ).codes);
                }
                previous
            },
            None => None,
        }
    }

    /// Takes an admission back if storing it failed.
    pub fn settle_enrollment(
        &mut self,
        peer: EndpointId,
        id: Id,
        certificate: &Certificate,
        previous: Option<Redemption<P>>,
        saved: Result<(), Error>,
    ) -> (r: Result<(), Error>)
        requires
            old(self)@.codes.contains_key(id@),
        ensures
            r == saved,
            final(self).stored() == old(self).stored(),
            final(self).saves() == old(self).saves(),
            final(self)@ == match saved {
                Ok(()) => old(self)@,
                Err(_) => {
                    let g = old(self)@.codes[id@];
                    HostView {
                        codes: old(self)@.codes.insert(
                            id@,
                            GrantView {
                                redeemed: match previous {
                                    Some(c) => g.redeemed.insert(peer@, c@),
                                    None => g.redeemed.remove(peer@),
                                },
                                ..g
                            },
                        ),
                        members: old(self)@.members.remove(certificate@.claims.id),
                        ..old(self)@
                    }
                },
            },
    {
        if saved.is_err() {
            self.members.remove(&certificate.id());
            match self.codes.remove(&id) {
                Some(grant) => {
                    proof {
                        use_type_invariant(&grant);
                    }
                    let Grant { hash, expires, options, mut redeemed, memory } = grant;
                    match previous {
                        Some(c) => {
                            redeemed.insert(peer, c);
                        },
                        None => {
                            redeemed.remove(&peer);
                        },
                    }
                    let ghost g = old(self)@.codes[id@];
                    let ghost back = redeemed@;
                    self.codes.insert(id, Grant { hash, expires, options, redeemed, memory });
                    proof {
                        assert(self@.codes =~= old(self)@.codes.insert(
                            id@,
                            GrantView { redeemed: back, ..g },
                        ));
                    }
                },
                None => {},
            }
        }
        saved
    }

    /// Admits an endpoint that shows the secret of a code, under a certificate with the given
    /// identifier, or gives it again what it was given before. Whatever fails after the request was
    /// judged leaves no trace of the admission.
    pub fn enroll_as<M: Meter<P>>(
        &mut self,
        peer: EndpointId,
        id: Id,
        secret: [u8; 32],
        now: u64,
        host_expires: u64,
        trust: &Trust,
        meter: &mut Ledger<M, AskedView>,
        max_members: usize,
        certificate_id: Id,
    ) -> (r: Result<Enrollment, Error>)
        ensures
            final(self).stored() == old(self).stored(),
            old(self).saves().is_prefix_of(final(self).saves()),
            enrolls(
                old(self)@,
                peer@,
                id@,
                secret@,
                now,
                host_expires,
                trust@,
                max_members as nat,
                certificate_id@,
                enrollment_outcome(r),
                final(self)@,
                old(self).stored(),
                since(old(meter).log(), final(meter).log()),
                since(old(self).saves(), final(self).saves()),
            ),
            old(meter).log().is_prefix_of(final(meter).log()),
    {
        let ghost current = members_current(old(self)@, now);
        let ghost before = meter.log();
        match self.review_enrollment(peer, &id, &secret, now, trust, max_members)? {
            Some(enrollment) => return Ok(enrollment),
            None => {},
        }
        let memory = meter.reserve(MEMBER_CHARGE)?;
        let ghost first = meter.log();
        assert(since(before, first) =~= seq![AskedView { bytes: MEMBER_CHARGE as nat, refusal: None }]);
        let certificate = self.issue_for(peer, &id, now, host_expires, certificate_id)?;
        let metering = meter.reserve(certificate.charge())?;
        let ghost charge = certificate_charge(certificate@);
        assert(since(before, meter.log()) =~= seq![
            AskedView { bytes: MEMBER_CHARGE as nat, refusal: None },
            AskedView { bytes: charge, refusal: None },
        ]);
        // The admission and the cached reply are recorded together before success is reported.
        let previous = self.record(peer, id, &certificate, memory, metering);
        let ghost admitted = self@;
        let saved = self.persist();
        let settled = self.settle_enrollment(peer, id, &certificate, previous, saved);
        proof {
            if settled is Err {
                let g = current.codes[id@];
                assert(self@.codes[id@].redeemed =~= g.redeemed);
                assert(self@.codes =~= current.codes);
                assert(self@.members =~= current.members.remove(certificate_id@));
            }
        }
        settled?;
        match self.codes.get(&id) {
            Some(grant) => Ok(
                Enrollment {
                    trust: self.authority.trust(),
                    expires: grant.expires,
                    certificate,
                },
            ),
            None => Err(Error::Unauthorized),
        }
    }
}

/// What became of a request for admission.
pub open spec fn enrollment_outcome(r: Result<Enrollment, Error>) -> Result<EnrollmentView, Error> {
    match r {
        Ok(e) => Ok(e@),
        Err(e) => Err(e),
    }
}

/// Whether this is what may come of a request for admission, and the state after it. `asked` is what
/// was asked for meanwhile, `stored` whether the state is kept in storage, and `saved` what storage
/// was handed and answered. Where the request was judged good, it still fails where memory is
/// refused or storage does not take the new state, and with that very error; then the codes are as
/// they were, and no member is added.
pub open spec fn enrolls(
    h: HostView,
    peer: Seq<u8>,
    id: Seq<u8>,
    secret: Seq<u8>,
    now: u64,
    host_expires: u64,
    trust: TrustView,
    max_members: nat,
    certificate_id: Seq<u8>,
    outcome: Result<EnrollmentView, Error>,
    after: HostView,
    stored: bool,
    asked: Seq<AskedView>,
    saved: Seq<SavedView>,
) -> bool {
    let current = members_current(h, now);
    match enrollment_review(h, peer, id, secret, now, trust, max_members) {
        Err(e) => outcome == Err::<EnrollmentView, Error>(e) && after == current && asked.len()
            == 0 && saved.len() == 0,
        Ok(Some(granted)) => outcome == Ok::<EnrollmentView, Error>(granted) && after == current
            && asked.len() == 0 && saved.len() == 0,
        Ok(None) => {
            let made = enrollment_certificate(h, peer, id, now, host_expires, certificate_id);
            &&& asked.len() > 0 && asked[0].bytes == MEMBER_CHARGE
            &&& match (asked[0].refusal, made) {
                (Some(e), _) => asked.len() == 1 && outcome == Err::<EnrollmentView, Error>(e)
                    && after == current && saved.len() == 0,
                (None, Err(e)) => asked.len() == 1 && outcome == Err::<EnrollmentView, Error>(e)
                    && after == current && saved.len() == 0,
                (None, Ok(c)) => {
                    &&& asked.len() == 2 && asked[1].bytes == certificate_charge(c)
                    &&& match asked[1].refusal {
                        Some(e) => outcome == Err::<EnrollmentView, Error>(e) && after == current
                            && saved.len() == 0,
                        None => enrolls_as_stored(
                            h,
                            current,
                            peer,
                            id,
                            certificate_id,
                            c,
                            outcome,
                            after,
                            stored,
                            saved,
                        ),
                    }
                },
            }
        },
    }
}

/// Whether this is what comes of a request for admission once its certificate is made and what it
/// takes is set aside: storage is handed the state with the new member, who is taken back if it does
/// not take it.
pub open spec fn enrolls_as_stored(
    h: HostView,
    current: HostView,
    peer: Seq<u8>,
    id: Seq<u8>,
    certificate_id: Seq<u8>,
    c: CertificateView,
    outcome: Result<EnrollmentView, Error>,
    after: HostView,
    stored: bool,
    saved: Seq<SavedView>,
) -> bool {
    let admitted = peer_admitted(current, peer, id, c);
    &&& handed_over(admitted, stored, saved)
    &&& match storing(admitted, stored, saved) {
        Ok(()) => {
            &&& outcome == Ok::<EnrollmentView, Error>(
                EnrollmentView {
                    trust: new_trust(h.authority.realm, public_key(h.authority.secret)),
                    expires: h.codes[id].expires,
                    certificate: c,
                },
            )
            &&& after == admitted
        },
        Err(e) => {
            &&& outcome == Err::<EnrollmentView, Error>(e)
            &&& after == (HostView { members: current.members.remove(certificate_id), ..current })
        },
    }
}

/// What keeping a certificate costs.
pub open spec fn certificate_charge(c: CertificateView) -> nat {
    c.bytes.len() * 4 + 16384
}

impl<P> Host<P> {
    /// Gives out the code with the given secret.
    pub fn issue_as<M: Meter<P>>(
        &mut self,
        options: JoinOptions,
        address: &EndpointAddr,
        now: u64,
        meter: &mut Ledger<M, AskedView>,
        max_codes: usize,
        trial: Id,
        secret: [u8; 32],
    ) -> (r: Result<JoinCode, Error>)
        requires
            now + MAX_JOIN_SECS <= u64::MAX,
        ensures
            final(self).stored() == old(self).stored(),
            old(self).saves().is_prefix_of(final(self).saves()),
            gives_code(
                old(self)@,
                options@,
                address@,
                now,
                max_codes as nat,
                trial@,
                secret@,
                code_outcome(r),
                final(self)@,
                old(self).stored(),
                since(old(meter).log(), final(meter).log()),
                since(old(self).saves(), final(self).saves()),
            ),
            old(meter).log().is_prefix_of(final(meter).log()),
    {
        let ghost before = meter.log();
        let charge: usize = self.review_code(&options, address, now, max_codes, trial)?;
        let memory = meter.reserve(charge)?;
        assert(since(before, meter.log()) =~= seq![AskedView { bytes: charge as nat, refusal: None }]);
        let code = self.add_code(options, address, now, memory, secret)?;
        let id = code.id();
        let saved = self.persist();
        let settled = self.settle_code(&id, saved);
        proof {
            if settled is Err {
                assert(self@.codes =~= old(self)@.codes.remove(id@));
            }
        }
        settled?;
        Ok(code)
    }

    /// Puts a code that was taken back in its place again if storing that failed.
    pub fn settle_revocation(
        &mut self,
        id: Id,
        removed: Option<Grant<P>>,
        saved: Result<(), Error>,
    ) -> (r: Result<(), Error>)
        ensures
            r == saved,
            final(self).stored() == old(self).stored(),
            final(self).saves() == old(self).saves(),
            final(self)@ == match (saved, removed) {
                (Err(_), Some(grant)) => HostView {
                    codes: old(self)@.codes.insert(id@, grant@),
                    ..old(self)@
                },
                _ => old(self)@,
            },
    {
        if saved.is_err() {
            if let Some(grant) = removed {
                self.codes.insert(id, grant);
            }
        }
        saved
    }

    /// Takes a code back. If that cannot be stored, the code stays.
    pub fn revoke_code(&mut self, id: Id) -> (r: Result<(), Error>)
        ensures
            final(self).stored() == old(self).stored(),
            old(self).saves().is_prefix_of(final(self).saves()),
            revokes(
                old(self)@,
                id@,
                r,
                final(self)@,
                old(self).stored(),
                since(old(self).saves(), final(self).saves()),
            ),
    {
        let removed = self.codes.remove(&id);
        assert(self@.codes =~= code_removed(old(self)@, id@).codes);
        let saved = self.persist();
        let r = self.settle_revocation(id, removed, saved);
        proof {
            if r is Err {
                assert(self@.codes =~= old(self)@.codes);
            }
        }
        r
    }

    /// Drops the codes and the members whose time has run out.
    pub fn prune(&mut self, now: u64)
        ensures
            final(self).stored() == old(self).stored(),
            final(self).saves() == old(self).saves(),
            final(self)@ == pruned(old(self)@, now),
    {
        let ghost keep = |id: Seq<u8>, g: GrantView| now < g.expires;
        let current = |id: &Id, g: &Grant<P>| -> (b: bool)
            ensures
                b == (now < g@.expires),
            { now < g.expires };
        self.codes.retain(current, Ghost(keep));
        self.drop_members(now);
    }

    /// Whether `peer` is a member under this certificate.
    pub fn is_member(&self, peer: EndpointId, certificate: &Certificate) -> (r: bool)
        ensures
            r == (self@.members.contains_key(certificate@.claims.id)
                && self@.members[certificate@.claims.id].claims.subject == peer@),
    {
        match self.members.get(&certificate.id()) {
            Some(member) => member.certificate.endpoint_id().same(&peer),
            None => false,
        }
    }

    pub fn authority(&self) -> (a: &Authority)
        ensures
            a@ == self@.authority,
    {
        &self.authority
    }

    /// Whether the first `codes` codes and the first `members` members are accounted for.
    closed spec fn metered_to(&self, codes: int, members: int) -> bool {
        &&& forall|i: int| 0 <= i < codes ==> (#[trigger] self.codes.items()[i]).1.memory is Some
        &&& forall|i: int| 0 <= i < members ==> (#[trigger] self.members.items()[i]).1.memory is Some
    }

    /// What the codes and the members that are not accounted for cost, the codes first.
    pub closed spec fn charges_due(&self) -> Seq<nat> {
        code_charges(self.codes.items()) + member_charges(self.members.items())
    }

    /// Whether every code and every member is accounted for.
    pub closed spec fn metered(&self) -> bool {
        self.metered_to(self.codes.items().len() as int, self.members.items().len() as int)
    }

    /// Reserves memory for the codes and members of a state that was read back.
    pub fn meter<M: Meter<P>>(&mut self, meter: &mut Ledger<M, AskedView>) -> (r: Result<(), Error>)
        ensures
            final(self).stored() == old(self).stored(),
            final(self).saves() == old(self).saves(),
            final(self)@ == old(self)@,
            r is Ok ==> final(self).metered(),
            old(self).metered() ==> r is Ok && old(self).charges_due().len() == 0,
            old(self).unmetered() ==> old(self).charges_due() == realm_charges(old(self)@),
            asked_in_turn(
                since(old(meter).log(), final(meter).log()),
                old(self).charges_due(),
                r,
            ),
            old(meter).log().is_prefix_of(final(meter).log()),
    {
        let mut i: usize = 0;
        let ghost before = meter.log();
        let ghost codes = self.codes.items();
        let ghost members = self.members.items();
        let ghost due = code_charges(codes) + member_charges(members);
        proof {
            self.codes.lemma_items();
            self.members.lemma_items();
            lemma_no_charges(codes, members);
            if self.unmetered() {
                use_type_invariant(&self.codes);
                use_type_invariant(&self.members);
                self.codes.lemma_pairs();
                self.members.lemma_pairs();
                lemma_all_charges(codes, self.codes.pairs(), members, self.members.pairs());
            }
            assert(codes.take(0) =~= Seq::empty());
            assert(since(before, before) =~= Seq::empty());
        }
        while i < self.codes.len()
            invariant
                self.stored() == old(self).stored(),
                self.saves() == old(self).saves(),
                self@ == old(self)@,
                self.members == old(self).members,
                i <= self.codes.items().len(),
                self.codes.items().len() == self.codes.pairs().len(),
                self.metered_to(i as int, 0),
                old(self).metered() ==> self.metered(),
                old(self).metered() ==> due.len() == 0,
                old(self).unmetered() ==> due == realm_charges(old(self)@),
                before == old(meter).log(),
                before.is_prefix_of(meter.log()),
                codes == old(self).codes.items(),
                members == old(self).members.items(),
                due == code_charges(codes) + member_charges(members),
                self.codes.items().len() == codes.len(),
                forall|j: int|
                    i <= j < codes.len() ==> #[trigger] self.codes.items()[j] == codes[j],
                granted(since(before, meter.log()), code_charges(codes.take(i as int))),
            decreases self.codes.items().len() - i,
        {
            let ghost so_far = meter.log();
            proof {
                let next = codes.take(i + 1);
                assert(next.drop_last() =~= codes.take(i as int));
                assert(next.last() == codes[i as int]);
                assert(self.codes.items()[i as int] == codes[i as int]);
                lemma_charges_prefix(codes, i + 1);
            }
            let grant = self.codes.value_at(i);
            if grant.memory.is_none() {
                proof {
                    use_type_invariant(grant);
                }
                let charge: usize = charge_of_grant(&grant.options);
                let reserved = meter.reserve(charge);
                proof {
                    lemma_asked_next(before, so_far, meter.log(), charge as nat, refusal(reserved));
                    assert(code_charges(codes.take(i + 1)) == code_charges(
                        codes.take(i as int),
                    ).push(charge as nat));
                    assert(code_charges(codes.take(i + 1)).is_prefix_of(
                        code_charges(codes) + member_charges(members),
                    ));
                    lemma_refused(
                        since(before, so_far),
                        code_charges(codes.take(i as int)),
                        charge as nat,
                        due,
                    );
                }
                let memory = reserved?;
                let put = |g: Grant<P>| -> (v: Grant<P>)
                    ensures
                        v@ == g@,
                        v.memory is Some,
                    {
                        proof {
                            use_type_invariant(&g);
                        }
                        let Grant { hash, expires, options, redeemed, memory: _ } = g;
                        Grant { hash, expires, options, redeemed, memory: Some(memory) }
                    };
                self.codes.exchange_at(i, put);
            }
            i = i + 1;
        }
        let mut j: usize = 0;
        let ghost first = code_charges(codes);
        proof {
            self.members.lemma_items();
            assert(codes.take(i as int) =~= codes);
            assert(members.take(0) =~= Seq::empty());
            assert(first + member_charges(members.take(0)) =~= first);
        }
        while j < self.members.len()
            invariant
                self.stored() == old(self).stored(),
                self.saves() == old(self).saves(),
                self@ == old(self)@,
                j <= self.members.items().len(),
                self.members.items().len() == self.members.pairs().len(),
                self.metered_to(self.codes.items().len() as int, j as int),
                old(self).metered() ==> self.metered(),
                old(self).metered() ==> due.len() == 0,
                old(self).unmetered() ==> due == realm_charges(old(self)@),
                before == old(meter).log(),
                before.is_prefix_of(meter.log()),
                codes == old(self).codes.items(),
                members == old(self).members.items(),
                first == code_charges(codes),
                due == first + member_charges(members),
                self.members.items().len() == members.len(),
                forall|k: int|
                    j <= k < members.len() ==> #[trigger] self.members.items()[k] == members[k],
                granted(
                    since(before, meter.log()),
                    first + member_charges(members.take(j as int)),
                ),
            decreases self.members.items().len() - j,
        {
            let ghost so_far = meter.log();
            let ghost had = first + member_charges(members.take(j as int));
            proof {
                let next = members.take(j + 1);
                assert(next.drop_last() =~= members.take(j as int));
                assert(next.last() == members[j as int]);
                assert(self.members.items()[j as int] == members[j as int]);
                lemma_member_charges_prefix(members, j + 1);
            }
            if self.members.value_at(j).memory.is_none() {
                let reserved = meter.reserve(MEMBER_CHARGE);
                proof {
                    lemma_asked_next(
                        before,
                        so_far,
                        meter.log(),
                        MEMBER_CHARGE as nat,
                        refusal(reserved),
                    );
                    assert(first + member_charges(members.take(j + 1)) =~= had.push(
                        MEMBER_CHARGE as nat,
                    ));
                    lemma_refused(since(before, so_far), had, MEMBER_CHARGE as nat, due);
                }
                let memory = reserved?;
                let put = |m: Member<P>| -> (v: Member<P>)
                    ensures
                        v@ == m@,
                        v.memory is Some,
                    {
                        let Member { certificate, memory: _, metering } = m;
                        Member { certificate, memory: Some(memory), metering }
                    };
                self.members.exchange_at(j, put);
            }
            j = j + 1;
        }
        assert(members.take(j as int) =~= members);
        Ok(())
    }
}

/// What the codes on a list that are not accounted for cost.
spec fn code_charges<P>(s: Seq<(Id, Grant<P>)>) -> Seq<nat>
    decreases s.len(),
{
    if s.len() == 0 {
        Seq::empty()
    } else {
        let before = code_charges(s.drop_last());
        if s.last().1.memory is None {
            before.push(grant_charge(s.last().1@.options))
        } else {
            before
        }
    }
}

/// What the members on a list that are not accounted for cost.
spec fn member_charges<P>(s: Seq<(Id, Member<P>)>) -> Seq<nat>
    decreases s.len(),
{
    if s.len() == 0 {
        Seq::empty()
    } else {
        let before = member_charges(s.drop_last());
        if s.last().1.memory is None {
            before.push(MEMBER_CHARGE as nat)
        } else {
            before
        }
    }
}

/// What all codes and all members cost, the codes first.
pub open spec fn realm_charges(h: HostView) -> Seq<nat> {
    let codes = listing::<Id, GrantView>(h.codes);
    let members = listing::<Id, CertificateView>(h.members);
    Seq::new(codes.len(), |i: int| grant_charge(codes[i].1.options)) + Seq::new(
        members.len(),
        |i: int| MEMBER_CHARGE as nat,
    )
}

/// Whether all that was due was asked for, and granted.
spec fn granted(asked: Seq<AskedView>, due: Seq<nat>) -> bool {
    &&& asked.len() == due.len()
    &&& forall|i: int| 0 <= i < asked.len() ==> #[trigger] asked[i] == (AskedView { bytes: due[i], refusal: None })
}

proof fn lemma_asked_next(
    before: Seq<AskedView>,
    so_far: Seq<AskedView>,
    now: Seq<AskedView>,
    n: nat,
    e: Option<Error>,
)
    requires
        before.is_prefix_of(so_far),
        now == so_far.push(AskedView { bytes: n, refusal: e }),
    ensures
        before.is_prefix_of(now),
        since(before, now) == since(before, so_far).push(AskedView { bytes: n, refusal: e }),
{
    assert(now.take(before.len() as int) =~= so_far.take(before.len() as int));
    assert(since(before, now) =~= since(before, so_far).push(AskedView { bytes: n, refusal: e }));
}

proof fn lemma_refused(asked: Seq<AskedView>, had: Seq<nat>, n: nat, due: Seq<nat>)
    requires
        granted(asked, had),
        had.push(n).is_prefix_of(due),
    ensures
        forall|e: Error|
            #![trigger asked.push(AskedView { bytes: n, refusal: Some(e) })]
            asked_in_turn(asked.push(AskedView { bytes: n, refusal: Some(e) }), due, Err(e)),
        granted(asked.push(AskedView { bytes: n, refusal: None }), had.push(n)),
{
    assert forall|e: Error|
        #![trigger asked.push(AskedView { bytes: n, refusal: Some(e) })]
        asked_in_turn(asked.push(AskedView { bytes: n, refusal: Some(e) }), due, Err(e)) by {
        let all = asked.push(AskedView { bytes: n, refusal: Some(e) });
        assert forall|i: int| 0 <= i < all.len() implies (#[trigger] all[i]).bytes == due[i] by {
            assert(had.push(n)[i] == due.take((had.len() + 1) as int)[i]);
        }
    }
}

proof fn lemma_charges_prefix<P>(s: Seq<(Id, Grant<P>)>, n: int)
    requires
        0 <= n <= s.len(),
    ensures
        forall|rest: Seq<nat>| #[trigger]
            code_charges(s.take(n)).is_prefix_of(code_charges(s) + rest),
    decreases s.len() - n,
{
    if n == s.len() {
        assert(s.take(n) =~= s);
    } else {
        lemma_charges_prefix(s, n + 1);
        assert(s.take(n + 1).drop_last() =~= s.take(n));
        let a = code_charges(s.take(n));
        let b = code_charges(s.take(n + 1));
        assert forall|rest: Seq<nat>| #[trigger] a.is_prefix_of(code_charges(s) + rest) by {
            let whole = code_charges(s) + rest;
            assert(b.is_prefix_of(whole));
            assert(a =~= b.take(a.len() as int));
            assert(whole.take(a.len() as int) =~= whole.take(b.len() as int).take(a.len() as int));
        }
    }
    assert forall|rest: Seq<nat>| #[trigger]
        code_charges(s.take(n)).is_prefix_of(code_charges(s) + rest) by {
        let whole = code_charges(s) + rest;
        if n == s.len() {
            assert(whole.take(code_charges(s).len() as int) =~= code_charges(s));
        }
    }
}

proof fn lemma_member_charges_prefix<P>(s: Seq<(Id, Member<P>)>, n: int)
    requires
        0 <= n <= s.len(),
    ensures
        forall|first: Seq<nat>| #[trigger]
            (first + member_charges(s.take(n))).is_prefix_of(first + member_charges(s)),
    decreases s.len() - n,
{
    if n == s.len() {
        assert(s.take(n) =~= s);
    } else {
        lemma_member_charges_prefix(s, n + 1);
        assert(s.take(n + 1).drop_last() =~= s.take(n));
        let a = member_charges(s.take(n));
        let b = member_charges(s.take(n + 1));
        assert forall|first: Seq<nat>| #[trigger]
            (first + a).is_prefix_of(first + member_charges(s)) by {
            let whole = first + member_charges(s);
            assert((first + b).is_prefix_of(whole));
            assert(a =~= b.take(a.len() as int));
            assert(whole.take((first + a).len() as int) =~= whole.take(
                (first + b).len() as int,
            ).take((first + a).len() as int));
            assert(first + a =~= (first + b).take((first + a).len() as int));
        }
    }
}

proof fn lemma_no_charges<P>(codes: Seq<(Id, Grant<P>)>, members: Seq<(Id, Member<P>)>)
    ensures
        (forall|i: int| 0 <= i < codes.len() ==> (#[trigger] codes[i]).1.memory is Some)
            ==> code_charges(codes).len() == 0,
        (forall|i: int| 0 <= i < members.len() ==> (#[trigger] members[i]).1.memory is Some)
            ==> member_charges(members).len() == 0,
    decreases codes.len() + members.len(),
{
    if codes.len() > 0 {
        lemma_no_charges(codes.drop_last(), members);
        assert forall|i: int|
            0 <= i < codes.drop_last().len() && (forall|j: int|
                0 <= j < codes.len() ==> (#[trigger] codes[j]).1.memory is Some) implies (
        #[trigger] codes.drop_last()[i]).1.memory is Some by {
            assert(codes.drop_last()[i] == codes[i]);
        }
    }
    if members.len() > 0 {
        lemma_no_charges(codes, members.drop_last());
        assert forall|i: int|
            0 <= i < members.drop_last().len() && (forall|j: int|
                0 <= j < members.len() ==> (#[trigger] members[j]).1.memory is Some) implies (
        #[trigger] members.drop_last()[i]).1.memory is Some by {
            assert(members.drop_last()[i] == members[i]);
        }
    }
}

proof fn lemma_all_charges<P>(
    codes: Seq<(Id, Grant<P>)>,
    code_views: Seq<(Seq<u8>, GrantView)>,
    members: Seq<(Id, Member<P>)>,
    member_views: Seq<(Seq<u8>, CertificateView)>,
)
    requires
        codes.len() == code_views.len(),
        members.len() == member_views.len(),
        forall|i: int| 0 <= i < codes.len() ==> (#[trigger] codes[i]).1.memory is None,
        forall|i: int|
            0 <= i < codes.len() ==> (#[trigger] code_views[i]) == (codes[i].0@, codes[i].1@),
        forall|i: int| 0 <= i < members.len() ==> (#[trigger] members[i]).1.memory is None,
    ensures
        code_charges(codes) + member_charges(members) == Seq::new(
            code_views.len(),
            |i: int| grant_charge(code_views[i].1.options),
        ) + Seq::new(member_views.len(), |i: int| MEMBER_CHARGE as nat),
{
    lemma_code_charges(codes, codes.len() as int);
    lemma_member_charges(members, members.len() as int);
    assert(codes.take(codes.len() as int) =~= codes);
    assert(members.take(members.len() as int) =~= members);
    assert(code_charges(codes) =~= Seq::new(
        code_views.len(),
        |i: int| grant_charge(code_views[i].1.options),
    )) by {
        assert forall|i: int| 0 <= i < codes.len() implies code_charges(codes)[i] == grant_charge(
            code_views[i].1.options,
        ) by {
            assert(code_views[i] == (codes[i].0@, codes[i].1@));
        }
    }
    assert(member_charges(members) =~= Seq::new(
        member_views.len(),
        |i: int| MEMBER_CHARGE as nat,
    ));
}

proof fn lemma_code_charges<P>(s: Seq<(Id, Grant<P>)>, n: int)
    requires
        0 <= n <= s.len(),
        forall|i: int| 0 <= i < s.len() ==> (#[trigger] s[i]).1.memory is None,
    ensures
        code_charges(s.take(n)).len() == n,
        forall|i: int|
            0 <= i < n ==> #[trigger] code_charges(s.take(n))[i] == grant_charge(s[i].1@.options),
    decreases n,
{
    if n > 0 {
        lemma_code_charges(s, n - 1);
        assert(s.take(n).drop_last() =~= s.take(n - 1));
        assert(s.take(n).last() == s[n - 1]);
    }
}

proof fn lemma_member_charges<P>(s: Seq<(Id, Member<P>)>, n: int)
    requires
        0 <= n <= s.len(),
        forall|i: int| 0 <= i < s.len() ==> (#[trigger] s[i]).1.memory is None,
    ensures
        member_charges(s.take(n)).len() == n,
        forall|i: int| 0 <= i < n ==> #[trigger] member_charges(s.take(n))[i] == MEMBER_CHARGE,
    decreases n,
{
    if n > 0 {
        lemma_member_charges(s, n - 1);
        assert(s.take(n).drop_last() =~= s.take(n - 1));
        assert(s.take(n).last() == s[n - 1]);
    }
}

/// What became of giving out a code.
pub open spec fn code_outcome(r: Result<JoinCode, Error>) -> Result<CodeView, Error> {
    match r {
        Ok(c) => Ok(c@),
        Err(e) => Err(e),
    }
}

/// Whether this is what may come of giving out a code, and the state after it. `asked` is what was
/// asked for meanwhile, `stored` whether the state is kept in storage, and `saved` what storage was
/// handed and answered. Where the code may be given out, that still fails where memory is refused or
/// storage does not take the new state, and with that very error; then the code is taken back.
pub open spec fn gives_code(
    h: HostView,
    o: OptionsView,
    a: AddressView,
    now: u64,
    max_codes: nat,
    trial: Seq<u8>,
    secret: Seq<u8>,
    outcome: Result<CodeView, Error>,
    after: HostView,
    stored: bool,
    asked: Seq<AskedView>,
    saved: Seq<SavedView>,
) -> bool {
    let code = CodeView { address: compact(a), secret };
    let added = code_added(h, o, now, secret);
    match code_review(h, o, a, now, max_codes, trial) {
        Err(e) => outcome == Err::<CodeView, Error>(e) && after == h && asked.len() == 0
            && saved.len() == 0,
        Ok(n) => {
            &&& asked.len() == 1 && asked[0].bytes == n
            &&& match (asked[0].refusal, code_text(code)) {
                (Some(e), _) => outcome == Err::<CodeView, Error>(e) && after == h && saved.len()
                    == 0,
                (None, Err(e)) => outcome == Err::<CodeView, Error>(e) && after == h
                    && saved.len() == 0,
                (None, Ok(_)) => {
                    &&& handed_over(added, stored, saved)
                    &&& match storing(added, stored, saved) {
                        Ok(()) => outcome == Ok::<CodeView, Error>(code) && after == added,
                        Err(e) => outcome == Err::<CodeView, Error>(e) && after == code_removed(
                            h,
                            code_id(secret),
                        ),
                    }
                },
            }
        },
    }
}

/// Whether this is what comes of taking a code back, and the state after it. `stored` is whether the
/// state is kept in storage, and `saved` what storage was handed and answered. It fails where storage
/// does not take the state without the code, and with that very error; then the code stays.
pub open spec fn revokes(
    h: HostView,
    id: Seq<u8>,
    r: Result<(), Error>,
    after: HostView,
    stored: bool,
    saved: Seq<SavedView>,
) -> bool {
    let without = code_removed(h, id);
    &&& handed_over(without, stored, saved)
    &&& r == storing(without, stored, saved)
    &&& after == if r is Ok {
        without
    } else {
        h
    }
}

/// The state without the codes and the members whose time has run out.
pub open spec fn pruned(h: HostView, now: u64) -> HostView {
    HostView {
        codes: kept(h.codes, |id: Seq<u8>, g: GrantView| now < g.expires),
        ..members_current(h, now)
    }
}

// Hosts and their guests

/// The part that an endpoint plays in its realm, as a value.
#[verifier::ext_equal]
pub enum AdmissionView {
    Host(HostView),
    Client(Seq<u8>),
}

/// The part that an endpoint plays in its realm: it admits others, or it was admitted by a host.
pub enum Admission<P> {
    Host(Host<P>),
    Client(EndpointId),
}

impl<P> View for Admission<P> {
    type V = AdmissionView;

    open spec fn view(&self) -> AdmissionView {
        match *self {
            Admission::Host(host) => AdmissionView::Host(host@),
            Admission::Client(id) => AdmissionView::Client(id@),
        }
    }
}

/// Whether an endpoint is the host of a realm whose state can be read at the time `now`.
pub open spec fn readable_realm(v: AdmissionView, now: u64) -> bool {
    v matches AdmissionView::Host(h) && exists|b: Seq<u8>| #[trigger]
        host_of(b, now) == Ok::<HostView, Error>(h)
}

/// A realm with an authority and nobody in it.
pub open spec fn empty_host(a: AuthorityView) -> HostView {
    HostView { authority: a, codes: Map::empty(), members: Map::empty() }
}

/// The state of an empty realm can be read back at any time.
proof fn lemma_empty_host(a: AuthorityView, now: u64)
    requires
        a.secret.len() == 32,
        a.realm.len() == 16,
    ensures
        host_of(host_bytes(empty_host(a)), now) == Ok::<HostView, Error>(empty_host(a)),
        host_bytes(empty_host(a)).len() <= 200,
{
    let h = empty_host(a);
    lemma_listing_exists::<Id, GrantView>(h.codes);
    lemma_listing_exists::<Id, CertificateView>(h.members);
    assert(host_bytes(h).len() <= 200) by {
        reveal(array_head);
        reveal(uint_item);
        reveal(bytes_item);
        lemma_head_len(4, 6);
        lemma_head_len(4, 0);
        lemma_head_len(0, 1);
        lemma_head_len(2, 32);
        lemma_head_len(2, 16);
    }
    law_state_round_trip(h, now);
}

/// Generates a new private authority and empty enrollment state without starting a transport.
/// Store these opaque bytes securely and return them from `HostStorage::load` when hosting.
pub fn generate_host_state() -> (b: Vec<u8>)
    ensures
        exists|a: AuthorityView| #[trigger]
            host_bytes(empty_host(a)) == b@ && forall|now: u64| #[trigger]
                host_of(b@, now) == Ok::<HostView, Error>(empty_host(a)),
{
    let authority = Authority::generate();
    let secret = authority.secret_bytes();
    let realm = authority.realm_id();
    let host: Host<()> = Host::new(authority, None);
    let b = host.encode();
    proof {
        let a = authority@;
        assert(a.secret == secret@ && a.realm == realm@);
        assert(host@ == empty_host(a));
        assert forall|now: u64| #[trigger]
            host_of(b@, now) == Ok::<HostView, Error>(empty_host(a)) by {
            lemma_empty_host(a, now);
        }
    }
    b
}

impl<P> Admission<P> {
    /// A realm that is kept nowhere.
    pub fn host(authority: Authority) -> (a: Admission<P>)
        ensures
            a@ == AdmissionView::Host(empty_host(authority@)),
            !a.stored(),
    {
        Admission::Host(Host::new(authority, None))
    }

    /// Whether the realm is kept in storage.
    pub open spec fn stored(&self) -> bool {
        match *self {
            Admission::Host(host) => host.stored(),
            Admission::Client(_) => false,
        }
    }

    /// What was handed to storage so far, in order, and what storage answered.
    pub open spec fn saves(&self) -> Seq<SavedView> {
        match *self {
            Admission::Host(host) => host.saves(),
            Admission::Client(_) => Seq::empty(),
        }
    }

    /// The realm that storage holds, or a new one if it holds none. Whatever storage answers, the
    /// realm is kept there, and its state is one that can be read back.
    pub fn with_storage(storage: Arc<dyn HostStorage>, now: u64) -> (r: Result<
        Admission<P>,
        Error,
    >)
        ensures
            r matches Ok(a) ==> a.stored() && readable_realm(a@, now),
    {
        let loaded = storage.load();
        let storage = Some(storage);
        Admission::restore(loaded, storage, now)
    }

    /// The realm that storage was found to hold. State that cannot be read is refused, and left as
    /// it is. Where there is no state, a new realm is founded.
    pub fn restore(
        loaded: Result<Option<Vec<u8>>, Error>,
        storage: Option<Arc<dyn HostStorage>>,
        now: u64,
    ) -> (r: Result<Admission<P>, Error>)
        ensures
            r matches Ok(a) ==> a.stored() == storage is Some && readable_realm(a@, now),
            match loaded {
                Err(e) => r is Err && r->Err_0 == e,
                Ok(Some(b)) => match host_of(b@, now) {
                    Ok(h) => r is Ok && r->Ok_0@ == AdmissionView::Host(h) && (
                    r->Ok_0 matches Admission::Host(host) && host.unmetered()),
                    Err(e) => r is Err && r->Err_0 == e,
                },
                Ok(None) => {
                    &&& storage is None ==> r is Ok
                    &&& r matches Ok(a) ==> exists|authority: AuthorityView|
                        a@ == AdmissionView::Host(#[trigger] empty_host(authority))
                    &&& r matches Ok(a) ==> handed_over(
                        a@->Host_0,
                        storage is Some,
                        a.saves(),
                    ) && storing(a@->Host_0, storage is Some, a.saves()) is Ok
                },
            },
    {
        match loaded? {
            Some(bytes) => {
                let host = Host::decode(bytes.as_slice(), storage, now)?;
                assert(host_of(bytes@, now) == Ok::<HostView, Error>(host@));
                Ok(Admission::Host(host))
            },
            None => {
                let authority = Authority::generate();
                let secret = authority.secret_bytes();
                let realm = authority.realm_id();
                let mut host = Host::new(authority, storage);
                proof {
                    let a = authority@;
                    assert(a.secret == secret@ && a.realm == realm@);
                    assert(host@ == empty_host(a));
                    lemma_empty_host(a, now);
                }
                let saved = host.persist();
                assert(since(Seq::<SavedView>::empty(), host.saves()) =~= host.saves());
                Admission::founded(host, saved)
            },
        }
    }

    /// A new realm, where `saved` says whether its state could be stored: there is none where it
    /// could not.
    pub fn founded(host: Host<P>, saved: Result<(), Error>) -> (r: Result<Admission<P>, Error>)
        ensures
            match saved {
                Ok(_) => r is Ok && r->Ok_0@ == AdmissionView::Host(host@) && r->Ok_0.stored()
                    == host.stored() && r->Ok_0.saves() == host.saves(),
                Err(e) => r is Err && r->Err_0 == e,
            },
    {
        saved?;
        Ok(Admission::Host(host))
    }

    pub fn authority(&self) -> (r: Result<&Authority, Error>)
        ensures
            match self@ {
                AdmissionView::Host(h) => r is Ok && r->Ok_0@ == h.authority,
                AdmissionView::Client(_) => r is Err && r->Err_0 == Error::Unauthorized,
            },
    {
        match self {
            Admission::Host(host) => Ok(host.authority()),
            Admission::Client(_) => Err(Error::Unauthorized),
        }
    }

    /// Reserves memory for a state that was read back.
    pub fn meter<M: Meter<P>>(&mut self, meter: &mut Ledger<M, AskedView>) -> (r: Result<(), Error>)
        ensures
            final(self).stored() == old(self).stored(),
            final(self).saves() == old(self).saves(),
            final(self)@ == old(self)@,
            r is Ok ==> (*final(self) matches Admission::Host(host) ==> host.metered()),
            match *old(self) {
                Admission::Client(_) => r is Ok && final(meter).log() == old(meter).log(),
                Admission::Host(host) => {
                    &&& host.metered() ==> r is Ok && host.charges_due().len() == 0
                    &&& host.unmetered() ==> host.charges_due() == realm_charges(host@)
                    &&& asked_in_turn(
                        since(old(meter).log(), final(meter).log()),
                        host.charges_due(),
                        r,
                    )
                },
            },
            old(meter).log().is_prefix_of(final(meter).log()),
    {
        match self {
            Admission::Host(host) => host.meter(meter),
            Admission::Client(_) => Ok(()),
        }
    }

    /// Whether this endpoint may call `peer`: a guest calls its host, and no one else.
    pub fn can_dial(&self, peer: EndpointId) -> (r: bool)
        ensures
            r == (self@ == AdmissionView::Client(peer@)),
    {
        match self {
            Admission::Host(_) => false,
            Admission::Client(host) => host.same(&peer),
        }
    }

    /// Whether `peer` belongs to the realm under this certificate.
    pub fn check(&self, peer: EndpointId, certificate: &Certificate) -> (r: Result<(), Error>)
        ensures
            r == (if admits(self@, peer@, certificate@) {
                Ok::<(), Error>(())
            } else {
                Err::<(), Error>(Error::Unauthorized)
            }),
    {
        let allowed = match self {
            Admission::Host(host) => host.is_member(peer, certificate),
            Admission::Client(host) => host.same(&peer),
        };
        if allowed {
            Ok(())
        } else {
            Err(Error::Unauthorized)
        }
    }

    /// Gives out a code.
    pub fn issue<M: Meter<P>>(
        &mut self,
        options: JoinOptions,
        address: &EndpointAddr,
        now: u64,
        meter: &mut Ledger<M, AskedView>,
        max_codes: usize,
    ) -> (r: Result<JoinCode, Error>)
        requires
            now + MAX_JOIN_SECS <= u64::MAX,
        ensures
            final(self).stored() == old(self).stored(),
            old(self).saves().is_prefix_of(final(self).saves()),
            match old(self)@ {
                AdmissionView::Client(_) => r is Err && r->Err_0 == Error::Unauthorized && final(self)@
                    == old(self)@ && final(meter).log() == old(meter).log()
                    && final(self).saves() == old(self).saves(),
                AdmissionView::Host(h) => final(self)@ is Host && gives_some_code(
                    h,
                    options@,
                    address@,
                    now,
                    max_codes as nat,
                    code_outcome(r),
                    final(self)@->Host_0,
                    old(self).stored(),
                    since(old(meter).log(), final(meter).log()),
                    since(old(self).saves(), final(self).saves()),
                ),
            },
            old(meter).log().is_prefix_of(final(meter).log()),
    {
        match self {
            Admission::Host(host) => {
                let trial = random_id();
                let secret = random_bytes();
                let ghost h = host@;
                let ghost stored = host.stored();
                let ghost kept_before = host.saves();
                let ghost before = meter.log();
                let ghost asked = options@;
                let r = host.issue_as(options, address, now, meter, max_codes, trial, secret);
                proof {
                    let n = max_codes as nat;
                    let outcome = code_outcome(r);
                    assert(gives_code(
                        h,
                        asked,
                        address@,
                        now,
                        n,
                        trial@,
                        secret@,
                        outcome,
                        host@,
                        stored,
                        since(before, meter.log()),
                        since(kept_before, host.saves()),
                    ));
                    assert(trial@.len() == 16 && secret@.len() == 32);
                }
                r
            },
            Admission::Client(_) => Err(Error::Unauthorized),
        }
    }

    /// Takes a code back.
    pub fn revoke_code(&mut self, id: Id) -> (r: Result<(), Error>)
        ensures
            final(self).stored() == old(self).stored(),
            old(self).saves().is_prefix_of(final(self).saves()),
            match old(self)@ {
                AdmissionView::Client(_) => r is Err && r->Err_0 == Error::Unauthorized && final(self)@
                    == old(self)@ && final(self).saves() == old(self).saves(),
                AdmissionView::Host(h) => {
                    &&& final(self)@ is Host
                    &&& revokes(
                        h,
                        id@,
                        r,
                        final(self)@->Host_0,
                        old(self).stored(),
                        since(old(self).saves(), final(self).saves()),
                    )
                },
            },
    {
        match self {
            Admission::Host(host) => host.revoke_code(id),
            Admission::Client(_) => Err(Error::Unauthorized),
        }
    }

    /// Admits an endpoint that shows the secret of a code.
    pub fn enroll<M: Meter<P>>(
        &mut self,
        peer: EndpointId,
        id: Id,
        secret: [u8; 32],
        now: u64,
        host_expires: u64,
        trust: &Trust,
        meter: &mut Ledger<M, AskedView>,
        max_members: usize,
    ) -> (r: Result<Enrollment, Error>)
        ensures
            final(self).stored() == old(self).stored(),
            old(self).saves().is_prefix_of(final(self).saves()),
            match old(self)@ {
                AdmissionView::Client(_) => r is Err && r->Err_0 == Error::Unauthorized && final(self)@
                    == old(self)@ && final(meter).log() == old(meter).log()
                    && final(self).saves() == old(self).saves(),
                AdmissionView::Host(h) => final(self)@ is Host && enrolls_somehow(
                    h,
                    peer@,
                    id@,
                    secret@,
                    now,
                    host_expires,
                    trust@,
                    max_members as nat,
                    enrollment_outcome(r),
                    final(self)@->Host_0,
                    old(self).stored(),
                    since(old(meter).log(), final(meter).log()),
                    since(old(self).saves(), final(self).saves()),
                ),
            },
            old(meter).log().is_prefix_of(final(meter).log()),
    {
        match self {
            Admission::Host(host) => {
                let certificate_id = random_id();
                let ghost h = host@;
                let ghost stored = host.stored();
                let ghost kept_before = host.saves();
                let ghost before = meter.log();
                let r = host.enroll_as(
                    peer,
                    id,
                    secret,
                    now,
                    host_expires,
                    trust,
                    meter,
                    max_members,
                    certificate_id,
                );
                proof {
                    let n = max_members as nat;
                    let outcome = enrollment_outcome(r);
                    assert(enrolls(
                        h,
                        peer@,
                        id@,
                        secret@,
                        now,
                        host_expires,
                        trust@,
                        n,
                        certificate_id@,
                        outcome,
                        host@,
                        stored,
                        since(before, meter.log()),
                        since(kept_before, host.saves()),
                    ));
                    assert(certificate_id@.len() == 16);
                }
                r
            },
            Admission::Client(_) => Err(Error::Unauthorized),
        }
    }

    /// Drops what has run out.
    pub fn prune(&mut self, now: u64)
        ensures
            final(self).stored() == old(self).stored(),
            final(self).saves() == old(self).saves(),
            final(self)@ == match old(self)@ {
                AdmissionView::Client(id) => AdmissionView::Client(id),
                AdmissionView::Host(h) => AdmissionView::Host(pruned(h, now)),
            },
    {
        match self {
            Admission::Host(host) => {
                host.prune(now);
            },
            Admission::Client(_) => {},
        }
    }
}

/// Whether this is what may come of giving out a code with some secret.
pub open spec fn gives_some_code(
    h: HostView,
    o: OptionsView,
    a: AddressView,
    now: u64,
    max_codes: nat,
    outcome: Result<CodeView, Error>,
    after: HostView,
    stored: bool,
    asked: Seq<AskedView>,
    saved: Seq<SavedView>,
) -> bool {
    exists|trial: Seq<u8>, secret: Seq<u8>|
        trial.len() == 16 && secret.len() == 32 && #[trigger] gives_code(
            h,
            o,
            a,
            now,
            max_codes,
            trial,
            secret,
            outcome,
            after,
            stored,
            asked,
            saved,
        )
}

/// Whether this is what may come of a request for admission, under some identifier for the
/// certificate.
pub open spec fn enrolls_somehow(
    h: HostView,
    peer: Seq<u8>,
    id: Seq<u8>,
    secret: Seq<u8>,
    now: u64,
    host_expires: u64,
    trust: TrustView,
    max_members: nat,
    outcome: Result<EnrollmentView, Error>,
    after: HostView,
    stored: bool,
    asked: Seq<AskedView>,
    saved: Seq<SavedView>,
) -> bool {
    exists|certificate_id: Seq<u8>|
        certificate_id.len() == 16 && #[trigger] enrolls(
            h,
            peer,
            id,
            secret,
            now,
            host_expires,
            trust,
            max_members,
            certificate_id,
            outcome,
            after,
            stored,
            asked,
            saved,
        )
}

/// Whether `peer` belongs to the realm under this certificate: to its host as a member, to a guest
/// as its host.
pub open spec fn admits(a: AdmissionView, peer: Seq<u8>, c: CertificateView) -> bool {
    match a {
        AdmissionView::Host(h) => h.members.contains_key(c.claims.id)
            && h.members[c.claims.id].claims.subject == peer,
        AdmissionView::Client(host) => host == peer,
    }
}

// What admission promises

/// Whether no code admitted more endpoints than it may.
pub open spec fn uses_bounded(h: HostView) -> bool {
    forall|id: Seq<u8>| #[trigger]
        h.codes.contains_key(id) ==> h.codes[id].redeemed.dom().finite()
            && h.codes[id].redeemed.dom().len() <= h.codes[id].options.max_uses
}

/// No code ever admits more distinct endpoints than it may.
pub proof fn law_enroll_keeps_bound(
    h: HostView,
    peer: Seq<u8>,
    id: Seq<u8>,
    secret: Seq<u8>,
    now: u64,
    host_expires: u64,
    trust: TrustView,
    max_members: nat,
    certificate_id: Seq<u8>,
    outcome: Result<EnrollmentView, Error>,
    after: HostView,
    stored: bool,
    asked: Seq<AskedView>,
    saved: Seq<SavedView>,
)
    requires
        uses_bounded(h),
        enrolls(
            h,
            peer,
            id,
            secret,
            now,
            host_expires,
            trust,
            max_members,
            certificate_id,
            outcome,
            after,
            stored,
            asked,
            saved,
        ),
    ensures
        uses_bounded(after),
{
    assert forall|k: Seq<u8>| #[trigger] after.codes.contains_key(k) implies after.codes[k].redeemed.dom().finite()
        && after.codes[k].redeemed.dom().len() <= after.codes[k].options.max_uses by {
        assert(h.codes.contains_key(k));
        if enrollment_review(h, peer, id, secret, now, trust, max_members) == Ok::<
            Option<EnrollmentView>,
            Error,
        >(None) && outcome is Ok && k == id {
            let c = enrollment_certificate(h, peer, id, now, host_expires, certificate_id)->Ok_0;
            let g = h.codes[id];
            assert(after.codes[k].redeemed == g.redeemed.insert(peer, c));
            assert(g.redeemed.insert(peer, c).dom() =~= g.redeemed.dom().insert(peer));
        }
    }
}

/// A new code keeps the bound, and so does everything that takes codes away.
pub proof fn law_codes_keep_bound(
    h: HostView,
    o: OptionsView,
    now: u64,
    secret: Seq<u8>,
    id: Seq<u8>,
)
    requires
        uses_bounded(h),
    ensures
        uses_bounded(code_added(h, o, now, secret)),
        uses_bounded(code_removed(h, id)),
        uses_bounded(pruned(h, now)),
{
    let after = code_added(h, o, now, secret);
    assert forall|k: Seq<u8>| #[trigger] after.codes.contains_key(k) implies after.codes[k].redeemed.dom().finite()
        && after.codes[k].redeemed.dom().len() <= after.codes[k].options.max_uses by {
        if k != code_id(secret) {
            assert(h.codes.contains_key(k));
        } else {
            assert(after.codes[k].redeemed.dom() =~= Set::<Seq<u8>>::empty());
        }
    }
    assert forall|k: Seq<u8>| #[trigger] code_removed(h, id).codes.contains_key(k) implies {
        let g = code_removed(h, id).codes[k];
        g.redeemed.dom().finite() && g.redeemed.dom().len() <= g.options.max_uses
    } by {
        assert(h.codes.contains_key(k));
    }
    assert forall|k: Seq<u8>| #[trigger] pruned(h, now).codes.contains_key(k) implies {
        let g = pruned(h, now).codes[k];
        g.redeemed.dom().finite() && g.redeemed.dom().len() <= g.options.max_uses
    } by {
        assert(h.codes.contains_key(k));
    }
}

/// An endpoint that lost the reply asks again and gets the very same certificate, while it is in
/// force and not revoked, however many others were admitted; asking again uses nothing up and needs
/// neither memory nor storage.
pub proof fn law_enroll_again(
    h: HostView,
    peer: Seq<u8>,
    id: Seq<u8>,
    secret: Seq<u8>,
    now: u64,
    host_expires: u64,
    trust: TrustView,
    max_members: nat,
    certificate_id: Seq<u8>,
    outcome: Result<EnrollmentView, Error>,
    after: HostView,
    stored: bool,
    asked: Seq<AskedView>,
    saved: Seq<SavedView>,
)
    requires
        h.codes.contains_key(id),
        now < h.codes[id].expires,
        h.codes[id].hash == sha256(secret),
        h.codes[id].redeemed.contains_key(peer),
        now < h.codes[id].redeemed[peer].claims.expires,
        trust_check(trust, h.codes[id].redeemed[peer].claims, peer, now) is Ok,
        enrolls(
            h,
            peer,
            id,
            secret,
            now,
            host_expires,
            trust,
            max_members,
            certificate_id,
            outcome,
            after,
            stored,
            asked,
            saved,
        ),
    ensures
        outcome matches Ok(e) && e.certificate == h.codes[id].redeemed[peer] && e.expires
            == h.codes[id].expires,
        after.codes == h.codes,
        asked.len() == 0,
{
}

/// An endpoint that was admitted and asks again before anything else happens is given what it was
/// given, if the certificate is in force and not revoked.
pub proof fn law_enroll_then_again(
    h: HostView,
    peer: Seq<u8>,
    id: Seq<u8>,
    secret: Seq<u8>,
    now: u64,
    later: u64,
    host_expires: u64,
    trust: TrustView,
    max_members: nat,
    certificate_id: Seq<u8>,
    granted: EnrollmentView,
    after: HostView,
    stored: bool,
    asked: Seq<AskedView>,
    saved: Seq<SavedView>,
)
    requires
        enrolls(
            h,
            peer,
            id,
            secret,
            now,
            host_expires,
            trust,
            max_members,
            certificate_id,
            Ok(granted),
            after,
            stored,
            asked,
            saved,
        ),
        now <= later < granted.expires,
        later < granted.certificate.claims.expires,
        trust_check(trust, granted.certificate.claims, peer, later) is Ok,
    ensures
        enrollment_review(after, peer, id, secret, later, trust, max_members) == Ok::<
            Option<EnrollmentView>,
            Error,
        >(Some(granted)),
{
}

/// What fails leaves nothing behind: the codes are as they were, and so are the members but for
/// those whose time has run out, if the identifier drawn for the certificate was not in use.
pub proof fn law_failed_enrollment_leaves_no_trace(
    h: HostView,
    peer: Seq<u8>,
    id: Seq<u8>,
    secret: Seq<u8>,
    now: u64,
    host_expires: u64,
    trust: TrustView,
    max_members: nat,
    certificate_id: Seq<u8>,
    error: Error,
    after: HostView,
    stored: bool,
    asked: Seq<AskedView>,
    saved: Seq<SavedView>,
)
    requires
        enrolls(
            h,
            peer,
            id,
            secret,
            now,
            host_expires,
            trust,
            max_members,
            certificate_id,
            Err(error),
            after,
            stored,
            asked,
            saved,
        ),
        !members_current(h, now).members.contains_key(certificate_id),
    ensures
        after == members_current(h, now),
        after.codes == h.codes,
{
    let current = members_current(h, now);
    assert(current.members.remove(certificate_id) =~= current.members);
}

/// A request for admission that failed can be made again, and is judged as if it had never been
/// made: what it would have used up is still there.
pub proof fn law_failed_enrollment_can_be_retried(
    h: HostView,
    peer: Seq<u8>,
    id: Seq<u8>,
    secret: Seq<u8>,
    now: u64,
    later: u64,
    trust: TrustView,
    max_members: nat,
)
    requires
        now <= later,
    ensures
        enrollment_review(members_current(h, now), peer, id, secret, later, trust, max_members)
            == enrollment_review(h, peer, id, secret, later, trust, max_members),
{
    assert(members_current(members_current(h, now), later) =~= members_current(h, later));
}

/// A request for admission that was judged good succeeds wherever its certificate can be made, what
/// it takes is set aside, and the state with the new member is not too long for storage, which takes
/// it. The endpoint gets the certificate, and the code and the realm remember it.
pub proof fn law_good_enrollment_succeeds(
    h: HostView,
    peer: Seq<u8>,
    id: Seq<u8>,
    secret: Seq<u8>,
    now: u64,
    host_expires: u64,
    trust: TrustView,
    max_members: nat,
    certificate_id: Seq<u8>,
    outcome: Result<EnrollmentView, Error>,
    after: HostView,
    stored: bool,
    asked: Seq<AskedView>,
    saved: Seq<SavedView>,
)
    requires
        enrolls(
            h,
            peer,
            id,
            secret,
            now,
            host_expires,
            trust,
            max_members,
            certificate_id,
            outcome,
            after,
            stored,
            asked,
            saved,
        ),
        enrollment_review(h, peer, id, secret, now, trust, max_members) == Ok::<
            Option<EnrollmentView>,
            Error,
        >(None),
        enrollment_certificate(h, peer, id, now, host_expires, certificate_id) is Ok,
        stored ==> host_bytes(
            peer_admitted(
                members_current(h, now),
                peer,
                id,
                enrollment_certificate(h, peer, id, now, host_expires, certificate_id)->Ok_0,
            ),
        ).len() <= MAX_STATE,
        forall|i: int| 0 <= i < asked.len() ==> (#[trigger] asked[i]).refusal is None,
        forall|i: int| 0 <= i < saved.len() ==> (#[trigger] saved[i]).result is Ok,
    ensures
        ({
            let c = enrollment_certificate(
                h,
                peer,
                id,
                now,
                host_expires,
                certificate_id,
            )->Ok_0;
            &&& outcome matches Ok(e) && e.certificate == c && e.expires == h.codes[id].expires
            &&& after == peer_admitted(members_current(h, now), peer, id, c)
            &&& asked == seq![
                AskedView { bytes: MEMBER_CHARGE as nat, refusal: None },
                AskedView { bytes: certificate_charge(c), refusal: None },
            ]
            &&& saved.len() == if stored {
                1nat
            } else {
                0
            }
        }),
{
    assert(asked[0].refusal is None);
    assert(asked[1].refusal is None);
    if stored {
        assert(saved[0].result is Ok);
    }
}

/// One attempt to be admitted that failed, as a value: when it was made, the identifier that was
/// drawn for its certificate, what was asked for and stored meanwhile, and why it failed.
#[verifier::ext_equal]
pub struct AttemptView {
    pub now: u64,
    pub host_expires: u64,
    pub certificate_id: Seq<u8>,
    pub asked: Seq<AskedView>,
    pub saved: Seq<SavedView>,
    pub error: Error,
}

/// Whether an attempt to be admitted failed in this way, between these states.
pub open spec fn attempt_failed(
    h: HostView,
    peer: Seq<u8>,
    id: Seq<u8>,
    secret: Seq<u8>,
    trust: TrustView,
    max_members: nat,
    stored: bool,
    attempt: AttemptView,
    after: HostView,
) -> bool {
    enrolls(
        h,
        peer,
        id,
        secret,
        attempt.now,
        attempt.host_expires,
        trust,
        max_members,
        attempt.certificate_id,
        Err(attempt.error),
        after,
        stored,
        attempt.asked,
        attempt.saved,
    )
}

/// However often an endpoint fails to be admitted, nothing is used up: every attempt is judged as if
/// it were the first, one whose state storage refused fails with the error of storage, and the codes
/// and the members in force stay as they were. `states` are the states between the attempts.
pub proof fn law_failed_enrollments_can_be_repeated(
    states: Seq<HostView>,
    peer: Seq<u8>,
    id: Seq<u8>,
    secret: Seq<u8>,
    trust: TrustView,
    max_members: nat,
    stored: bool,
    attempts: Seq<AttemptView>,
    later: u64,
)
    requires
        states.len() == attempts.len() + 1,
        forall|i: int|
            0 <= i < attempts.len() ==> attempt_failed(
                states[i],
                peer,
                id,
                secret,
                trust,
                max_members,
                stored,
                #[trigger] attempts[i],
                states[i + 1],
            ),
        forall|i: int|
            0 <= i < attempts.len() ==> !states[0].members.contains_key(
                (#[trigger] attempts[i]).certificate_id,
            ),
        forall|i: int, j: int|
            0 <= i <= j < attempts.len() ==> (#[trigger] attempts[i]).now <= (
            #[trigger] attempts[j]).now,
        forall|i: int| 0 <= i < attempts.len() ==> (#[trigger] attempts[i]).now <= later,
    ensures
        states.last().codes == states[0].codes,
        members_current(states.last(), later) == members_current(states[0], later),
        enrollment_review(states.last(), peer, id, secret, later, trust, max_members)
            == enrollment_review(states[0], peer, id, secret, later, trust, max_members),
        forall|i: int|
            0 <= i < attempts.len() && (#[trigger] attempts[i]).saved.len() > 0 ==> {
                &&& attempts[i].saved.len() == 1
                &&& attempts[i].saved[0].result == Err::<(), Error>(attempts[i].error)
            },
    decreases attempts.len(),
{
    if attempts.len() > 0 {
        let n = attempts.len() - 1;
        let first = states.drop_last();
        let before = attempts.drop_last();
        assert forall|i: int| 0 <= i < before.len() implies attempt_failed(
            first[i],
            peer,
            id,
            secret,
            trust,
            max_members,
            stored,
            #[trigger] before[i],
            first[i + 1],
        ) by {
            assert(before[i] == attempts[i]);
        }
        let a = attempts[n];
        assert forall|i: int| 0 <= i < before.len() implies (#[trigger] before[i]).now <= a.now by {
            assert(before[i] == attempts[i]);
        }
        assert forall|i: int| 0 <= i < before.len() implies !first[0].members.contains_key(
            (#[trigger] before[i]).certificate_id,
        ) by {
            assert(before[i] == attempts[i]);
        }
        law_failed_enrollments_can_be_repeated(
            first,
            peer,
            id,
            secret,
            trust,
            max_members,
            stored,
            before,
            a.now,
        );
        assert forall|i: int|
            0 <= i < attempts.len() && (#[trigger] attempts[i]).saved.len() > 0 implies {
            &&& attempts[i].saved.len() == 1
            &&& attempts[i].saved[0].result == Err::<(), Error>(attempts[i].error)
        } by {
            if i < n {
                assert(before[i] == attempts[i]);
            }
        }
        let h = states[n];
        let current = members_current(states[0], a.now);
        assert(first.last() == h);
        assert(!current.members.contains_key(a.certificate_id));
        law_failed_enrollment_leaves_no_trace(
            h,
            peer,
            id,
            secret,
            a.now,
            a.host_expires,
            trust,
            max_members,
            a.certificate_id,
            a.error,
            states[n + 1],
            stored,
            a.asked,
            a.saved,
        );
        assert(states.last() == current);
        law_failed_enrollment_can_be_retried(
            states[0],
            peer,
            id,
            secret,
            a.now,
            later,
            trust,
            max_members,
        );
        assert(members_current(current, later) =~= members_current(states[0], later));
    }
}

/// A code that could not be given out leaves nothing behind, if its identifier was not in use.
pub proof fn law_failed_code_leaves_no_trace(
    h: HostView,
    o: OptionsView,
    a: AddressView,
    now: u64,
    max_codes: nat,
    trial: Seq<u8>,
    secret: Seq<u8>,
    error: Error,
    after: HostView,
    stored: bool,
    asked: Seq<AskedView>,
    saved: Seq<SavedView>,
)
    requires
        gives_code(
            h,
            o,
            a,
            now,
            max_codes,
            trial,
            secret,
            Err(error),
            after,
            stored,
            asked,
            saved,
        ),
        !h.codes.contains_key(code_id(secret)),
    ensures
        after == h,
{
    assert(h.codes.remove(code_id(secret)) =~= h.codes);
}

/// A code that was taken back, that has run out, or whose secret is not shown admits no one.
pub proof fn law_unusable_code_is_refused(
    h: HostView,
    peer: Seq<u8>,
    id: Seq<u8>,
    secret: Seq<u8>,
    now: u64,
    trust: TrustView,
    max_members: nat,
)
    ensures
        enrollment_review(code_removed(h, id), peer, id, secret, now, trust, max_members) == Err::<
            Option<EnrollmentView>,
            Error,
        >(Error::Unauthorized),
        h.codes.contains_key(id) && (h.codes[id].expires <= now || h.codes[id].hash != sha256(
            secret,
        )) ==> enrollment_review(h, peer, id, secret, now, trust, max_members) == Err::<
            Option<EnrollmentView>,
            Error,
        >(Error::Unauthorized),
{
}

/// The certificate that a code brings belongs to who redeemed it, grants what the code grants, and
/// outlives neither its own span nor the host's certificate. Its holder is a member.
pub proof fn law_enrolled_certificate(
    h: HostView,
    peer: Seq<u8>,
    id: Seq<u8>,
    now: u64,
    host_expires: u64,
    certificate_id: Seq<u8>,
    c: CertificateView,
)
    requires
        enrollment_certificate(h, peer, id, now, host_expires, certificate_id) == Ok::<
            CertificateView,
            Error,
        >(c),
    ensures
        c.claims.subject == peer,
        c.claims.realm == h.authority.realm,
        c.claims.issuer == public_key(h.authority.secret),
        c.claims.expires <= host_expires,
        c.claims.not_before == now,
        c.claims.limits == h.codes[id].options.limits,
        admits(AdmissionView::Host(peer_admitted(h, peer, id, c)), peer, c),
{
}

} // verus!
