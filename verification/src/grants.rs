//! What certificates, invitations and codes bring to those who hold them, term by term, and what
//! stops them.
use crate::address::{compact, AddressView};
use crate::admission::{
    admits, certificate_charge, code_added, code_list, code_removed, code_review, empty_host,
    enrollment_certificate, enrollment_review, enrolls, gives_code, grant_charge, host_bytes,
    member_list, members_current, peer_admitted, pruned, realm_charges, revokes, AdmissionView,
    GrantView, HostView,
};
use crate::auth::{
    arrangement, certificate_of, claims_allow, claims_bytes, claims_check, id_put, id_take, issued,
    law_issued_is_as_asked, new_trust, permission_on, revocation_bytes, trust_apply_list,
    trust_check, trust_verify, AuthorityView, CertificateLimits, CertificateView, ClaimsView,
    PermissionView, TrustView,
};
use crate::bootstrap::{reply_of, reply_to, EnrollmentView};
use crate::cbor::{bytes_item, group_read_back, lemma_nothing_after, lemma_take_fixed};
use crate::cose::{container, signed_bytes, verified_payload};
use crate::crypto::{public_key, sha256, signature};
use crate::endpoint::ConfigView;
use crate::enrollment::{
    after_redeem, invitation_review, invitations_left, invited, redeem_reply, redeem_review,
    redeemed_certificate, service_review, EnrollmentInviteView, InvitationView, Invitations,
    TermsView,
};
use crate::error::Error;
use crate::invite::InviteView;
use crate::join::{code_id, code_text, options_valid, CodeView, OptionsView};
use crate::ledger::{AskedView, SavedView};
use crate::message::{text_less, valid_topic};
use crate::record::{group_fields_back, lemma_take_all, put_all};
use vstd::prelude::*;
use vstd::utf8::encode_utf8;

verus! {

// Certificates

/// A certificate is good for a peer exactly when it is of the realm and by its authority, names
/// that peer, is not revoked, has begun and has not ended, give or take the clock skew, and what is
/// known of revocations has not run out.
pub proof fn law_certificate_is_good_for_its_subject(
    t: TrustView,
    c: ClaimsView,
    peer: Seq<u8>,
    now: u64,
)
    requires
        now + t.clock_skew_secs <= u64::MAX,
        c.expires + t.clock_skew_secs <= u64::MAX,
    ensures
        ({
            let r = trust_check(t, c, peer, now);
            let its = c.realm == t.realm && c.issuer == t.root && c.subject == peer
                && !t.revoked.contains(c.id);
            let timely = c.not_before <= now + t.clock_skew_secs && now < c.expires
                + t.clock_skew_secs;
            let informed = t.freshness is None || now < t.freshness->Some_0;
            &&& r is Ok <==> its && timely && informed
            &&& !its ==> r == Err::<(), Error>(Error::Unauthorized)
            &&& its && !timely ==> r == Err::<(), Error>(Error::CertificateExpired)
            &&& its && timely && !informed ==> r == Err::<(), Error>(Error::Unauthorized)
        }),
{
}

/// Where the clock skew reaches past the last time that can be told, a certificate does not begin
/// too late, nor end too early: it ends then.
pub proof fn law_certificate_at_the_end_of_time(
    t: TrustView,
    c: ClaimsView,
    peer: Seq<u8>,
    now: u64,
)
    requires
        c.realm == t.realm && c.issuer == t.root && c.subject == peer && !t.revoked.contains(c.id),
        t.freshness is None,
    ensures
        now + t.clock_skew_secs > u64::MAX && c.expires + t.clock_skew_secs > u64::MAX ==> (
        trust_check(t, c, peer, now) is Ok <==> now < u64::MAX),
        now + t.clock_skew_secs > u64::MAX && c.expires + t.clock_skew_secs <= u64::MAX ==> (
        trust_check(t, c, peer, now) is Ok <==> now < c.expires + t.clock_skew_secs),
        now + t.clock_skew_secs <= u64::MAX && c.expires + t.clock_skew_secs > u64::MAX ==> (
        trust_check(t, c, peer, now) is Ok <==> c.not_before <= now + t.clock_skew_secs && now
            < u64::MAX),
{
}

/// A certificate is verified when the authority signed it as a certificate and it is good.
pub proof fn law_certificate_is_signed_by_the_authority(
    t: TrustView,
    c: CertificateView,
    peer: Seq<u8>,
    now: u64,
)
    ensures
        ({
            let signed = verified_payload(
                c.bytes,
                t.root,
                encode_utf8("iroh-mq/certificate/v1"@),
                15360,
            );
            &&& signed matches Err(e) ==> trust_verify(t, c, peer, now) == Err::<(), Error>(e)
            &&& signed is Ok ==> trust_verify(t, c, peer, now) == trust_check(t, c.claims, peer, now)
        }),
{
}

/// A certificate lets its holder publish to a topic, or subscribe to it, exactly when one of its
/// permissions is on that topic and says so.
pub proof fn law_permission_is_for_its_topic(c: ClaimsView, topic: Seq<char>)
    ensures
        claims_allow(c, topic, true) <==> exists|i: int|
            0 <= i < c.permissions.len() && (#[trigger] c.permissions[i]).topic == topic
                && c.permissions[i].publish,
        claims_allow(c, topic, false) <==> exists|i: int|
            0 <= i < c.permissions.len() && (#[trigger] c.permissions[i]).topic == topic
                && c.permissions[i].subscribe,
{
}

/// A permission is on the topic and of the kind that was asked for, if that is a topic.
pub proof fn law_permission_is_as_asked(topic: Seq<char>, publish: bool, subscribe: bool)
    ensures
        valid_topic(topic) <==> permission_on(topic, publish, subscribe) is Ok,
        permission_on(topic, publish, subscribe) matches Ok(p) ==> p.topic == topic && p.publish
            == publish && p.subscribe == subscribe,
        permission_on(topic, publish, subscribe) matches Err(e) ==> e == Error::InvalidTopic,
{
}

/// Trust that is new knows of no revocation and allows for no clock skew.
pub proof fn law_new_trust_knows_nothing(realm: Seq<u8>, root: Seq<u8>, id: Seq<u8>)
    ensures
        ({
            let t = new_trust(realm, root);
            &&& t.realm == realm && t.root == root
            &&& !t.revoked.contains(id)
            &&& t.version == 0 && t.freshness is None && t.clock_skew_secs == 0
        }),
{
}

/// A certificate that is issued has every term that was asked for, its permissions being the same
/// ones, and is signed with the authority's key.
pub proof fn law_certificate_has_its_terms(
    a: AuthorityView,
    id: Seq<u8>,
    subject: Seq<u8>,
    permissions: Seq<PermissionView>,
    not_before: u64,
    expires: u64,
    limits: CertificateLimits,
)
    ensures
        issued(a, id, subject, permissions, not_before, expires, limits) matches Ok(c) ==> {
            &&& c.claims.realm == a.realm
            &&& c.claims.issuer == public_key(a.secret)
            &&& c.claims.id == id
            &&& c.claims.subject == subject
            &&& c.claims.not_before == not_before
            &&& c.claims.expires == expires
            &&& c.claims.limits == limits
            &&& c.claims.permissions.to_set() == permissions.to_set()
            &&& c.claims.permissions.len() == permissions.len()
            &&& c.bytes == container(
                claims_bytes(c.claims),
                signature(
                    a.secret,
                    signed_bytes(
                        claims_bytes(c.claims),
                        encode_utf8("iroh-mq/certificate/v1"@),
                    ),
                ),
            )
        },
{
    if let Ok(c) = issued(a, id, subject, permissions, not_before, expires, limits) {
        law_issued_is_as_asked(a, id, subject, permissions, not_before, expires, limits, c, 0);
    }
}

/// When a certificate is issued, and what stops it: it lasts for some time, has no more than 256
/// permissions, each of which grants something and no two of which are on one topic, and is not too
/// long.
pub proof fn law_certificate_is_issued(
    a: AuthorityView,
    id: Seq<u8>,
    subject: Seq<u8>,
    permissions: Seq<PermissionView>,
    not_before: u64,
    expires: u64,
    limits: CertificateLimits,
)
    ensures
        ({
            let r = issued(a, id, subject, permissions, not_before, expires, limits);
            let brief = not_before < expires && permissions.len() <= 256;
            let useful = forall|i: int|
                0 <= i < permissions.len() ==> (#[trigger] permissions[i]).publish
                    || permissions[i].subscribe;
            let apart = forall|i: int, j: int|
                0 <= i < j < permissions.len() ==> (#[trigger] permissions[i]).topic != (
                #[trigger] permissions[j]).topic;
            &&& r is Ok ==> brief && useful && apart && r->Ok_0.bytes.len() <= 15360
            &&& !brief <==> r == Err::<CertificateView, Error>(Error::Protocol("certificate claims"))
            &&& brief && !(useful && apart) <==> r == Err::<CertificateView, Error>(
                Error::Protocol("permissions must be unique and sorted"),
            )
            &&& brief && useful && apart && r is Err ==> r == Err::<CertificateView, Error>(
                Error::MessageTooLarge,
            )
            &&& brief && useful && apart ==> (r is Ok <==> {
                let claims = ClaimsView {
                    realm: a.realm,
                    issuer: public_key(a.secret),
                    id,
                    subject,
                    not_before,
                    expires,
                    permissions: arrangement(permissions),
                    limits,
                };
                container(
                    claims_bytes(claims),
                    signature(
                        a.secret,
                        signed_bytes(
                            claims_bytes(claims),
                            encode_utf8("iroh-mq/certificate/v1"@),
                        ),
                    ),
                ).len() <= 15360
            })
        }),
{
}

// Invitations

/// An invitation that nobody has redeemed brings the one who redeems it a certificate on its terms:
/// in their name, with its limits and its permissions, from now on and for as long as it says. From
/// then on it is theirs. Other invitations are as before.
pub proof fn law_invitation_brings_its_terms(
    m: Invitations,
    a: AuthorityView,
    peer: Seq<u8>,
    id: Seq<u8>,
    secret: Seq<u8>,
    now: u64,
    trial: Seq<u8>,
)
    requires
        m.contains_key(id) ==> now + m[id].valid_for <= u64::MAX,
    ensures
        ({
            let (w, r) = after_redeem(m, a, peer, id, secret, Some(now), trial);
            r matches Ok(c) ==> {
                &&& m.contains_key(id) && now < m[id].expires && m[id].hash == sha256(secret)
                &&& m[id].redeemed is None ==> {
                    &&& c.claims.limits == m[id].limits
                    &&& c.claims.permissions.to_set() == m[id].permissions.to_set()
                    &&& c.claims.permissions.len() == m[id].permissions.len()
                    &&& c.claims.subject == peer
                    &&& c.claims.not_before == now
                    &&& c.claims.expires == now + m[id].valid_for
                    &&& c.claims.realm == a.realm
                    &&& c.claims.issuer == public_key(a.secret)
                    &&& c.claims.id == trial
                    &&& w.dom() == m.dom()
                    &&& w[id].redeemed == Some((peer, c))
                    &&& w[id] == (InvitationView { redeemed: w[id].redeemed, ..m[id] })
                    &&& forall|k: Seq<u8>| #[trigger]
                        m.contains_key(k) && k != id ==> w[k] == m[k]
                }
                &&& m[id].redeemed is Some ==> w == m && m[id].redeemed == Some((peer, c)) && now
                    < c.claims.expires
            }
        }),
{
    if let Ok(c) = after_redeem(m, a, peer, id, secret, Some(now), trial).1 {
        if m[id].redeemed is None {
            law_certificate_has_its_terms(
                a,
                trial,
                peer,
                m[id].permissions,
                now,
                (now + m[id].valid_for) as u64,
                m[id].limits,
            );
        }
    }
}

/// When an invitation brings nothing: without a clock, where there is none of this name, after it
/// has expired, without its secret, and for anyone but the one who redeemed it, who gets the
/// certificate again until that expires. What is asked in vain changes nothing. To the first who
/// asks it brings a certificate whenever one can be issued.
pub proof fn law_invitation_brings_nothing_else(
    m: Invitations,
    a: AuthorityView,
    peer: Seq<u8>,
    id: Seq<u8>,
    secret: Seq<u8>,
    clock: Option<u64>,
    trial: Seq<u8>,
)
    ensures
        ({
            let (w, r) = after_redeem(m, a, peer, id, secret, clock, trial);
            &&& r is Err ==> w == m
            &&& clock is None ==> r == Err::<CertificateView, Error>(Error::Clock)
            &&& clock matches Some(now) ==> {
                let open = m.contains_key(id) && now < m[id].expires && m[id].hash == sha256(secret);
                &&& !open ==> r == Err::<CertificateView, Error>(Error::Unauthorized)
                &&& open ==> (m[id].redeemed matches Some((holder, c)) ==> if holder == peer && now
                    < c.claims.expires {
                    r == Ok::<CertificateView, Error>(c)
                } else {
                    r == Err::<CertificateView, Error>(Error::Unauthorized)
                })
                &&& open && m[id].redeemed is None ==> r == issued(
                    a,
                    trial,
                    peer,
                    m[id].permissions,
                    now,
                    (now + m[id].valid_for) as u64,
                    m[id].limits,
                )
            }
        }),
{
}

/// An invitation that is given out keeps the terms that were asked for: whoever redeems it first,
/// with its secret and before the whole seconds of its lifetime are over, gets a certificate with
/// the limits and the permissions that were asked for, which lasts for the whole seconds of its
/// validity from then on.
pub proof fn law_invitation_keeps_its_terms(
    m: Invitations,
    w: Invitations,
    a: AuthorityView,
    own: Seq<u8>,
    contact: InviteView,
    t: TermsView,
    now: u64,
    max: nat,
    trial: Seq<u8>,
    id: Seq<u8>,
    secret: Seq<u8>,
    asked: Seq<AskedView>,
    i: EnrollmentInviteView,
    peer: Seq<u8>,
    then: u64,
    trial2: Seq<u8>,
)
    requires
        invited(
            m,
            w,
            a,
            own,
            contact,
            t,
            Some(now),
            max,
            trial,
            id,
            secret,
            asked,
            Ok(i),
        ),
        now + 86400 <= u64::MAX,
        then + 86400 <= u64::MAX,
    ensures
        i.contact == contact,
        i.expires_at == now + t.lifetime / 1_000_000_000,
        i.id == id,
        i.secret == secret,
        w.dom() == m.dom().insert(id),
        forall|k: Seq<u8>| #[trigger] m.contains_key(k) && k != id ==> w[k] == m[k],
        w[id].redeemed is None,
        m.dom().len() < max,
        ({
            let r = after_redeem(w, a, peer, i.id, i.secret, Some(then), trial2).1;
            &&& then >= now + t.lifetime / 1_000_000_000 ==> r == Err::<CertificateView, Error>(
                Error::Unauthorized,
            )
            &&& then < now + t.lifetime / 1_000_000_000 ==> r == issued(
                a,
                trial2,
                peer,
                t.permissions,
                then,
                (then + t.valid_for / 1_000_000_000) as u64,
                t.limits,
            )
            &&& r matches Ok(c) ==> {
                &&& c.claims.limits == t.limits
                &&& c.claims.permissions.to_set() == t.permissions.to_set()
                &&& c.claims.subject == peer
                &&& c.claims.not_before == then
                &&& c.claims.expires == then + t.valid_for / 1_000_000_000
            }
        }),
{
    law_invitation_brings_its_terms(w, a, peer, id, secret, then, trial2);
}

/// An invitation is given out whenever it can be and what it takes is set aside, which is asked for
/// once. Otherwise nothing changes.
pub proof fn law_invitation_is_given_out(
    m: Invitations,
    w: Invitations,
    a: AuthorityView,
    own: Seq<u8>,
    contact: InviteView,
    t: TermsView,
    clock: Option<u64>,
    max: nat,
    trial: Seq<u8>,
    id: Seq<u8>,
    secret: Seq<u8>,
    asked: Seq<AskedView>,
    r: Result<EnrollmentInviteView, Error>,
)
    requires
        invited(m, w, a, own, contact, t, clock, max, trial, id, secret, asked, r),
    ensures
        ({
            let review = invitation_review(m, a, own, t, clock, max, trial);
            &&& review matches Err(e) ==> r == Err::<EnrollmentInviteView, Error>(e) && asked.len()
                == 0
            &&& review matches Ok(n) ==> {
                &&& asked.len() == 1 && asked[0].bytes == n
                &&& asked[0].refusal is None ==> r is Ok && w.contains_key(id)
                &&& asked[0].refusal matches Some(e) ==> r == Err::<EnrollmentInviteView, Error>(e)
            }
            &&& r is Err ==> w == m
        }),
{
}

/// When an invitation can be given out, and what stops it: the clock is known, there are not too
/// many, it has no more than 256 permissions, it and the certificate that it brings last from a
/// second to a day, and such a certificate can be issued. Keeping it costs a certificate at its
/// longest, four kilobytes, and what its permissions take.
pub proof fn law_invitation_is_within_limits(
    m: Invitations,
    a: AuthorityView,
    own: Seq<u8>,
    t: TermsView,
    clock: Option<u64>,
    max: nat,
    trial: Seq<u8>,
)
    requires
        clock matches Some(now) ==> now + 86400 <= u64::MAX,
    ensures
        ({
            let r = invitation_review(m, a, own, t, clock, max, trial);
            let sound = t.permissions.len() <= 256 && 1_000_000_000 <= t.lifetime < 86401
                * 1_000_000_000 && 1_000_000_000 <= t.valid_for < 86401 * 1_000_000_000;
            &&& clock is None ==> r == Err::<nat, Error>(Error::Clock)
            &&& clock matches Some(now) ==> {
                let made = issued(
                    a,
                    trial,
                    own,
                    t.permissions,
                    now,
                    (now + t.valid_for / 1_000_000_000) as u64,
                    t.limits,
                );
                &&& m.dom().len() >= max ==> r == Err::<nat, Error>(Error::QueueFull)
                &&& m.dom().len() < max && !sound ==> r == Err::<nat, Error>(
                    Error::Config("invitation limits"),
                )
                &&& m.dom().len() < max && sound ==> (made matches Err(e) ==> r == Err::<nat, Error>(
                    e,
                )) && (made is Ok ==> r == Ok::<nat, Error>(
                    15360 + 4096 + crate::admission::permissions_charge(t.permissions),
                ))
            }
        }),
{
}

/// What a permission costs to keep: the bytes of its topic and 128 more.
pub proof fn law_permissions_cost_their_topics(ps: Seq<PermissionView>, p: PermissionView)
    ensures
        crate::admission::permissions_charge(Seq::empty()) == 0,
        crate::admission::permissions_charge(ps.push(p)) == crate::admission::permissions_charge(ps)
            + encode_utf8(p.topic).len() + 128,
{
    assert(ps.push(p).drop_last() =~= ps);
}

/// The invitations that have expired are forgotten, and no others.
pub proof fn law_expired_invitations_are_forgotten(m: Invitations, now: u64, id: Seq<u8>)
    ensures
        invitations_left(m, now).contains_key(id) <==> m.contains_key(id) && now < m[id].expires,
        invitations_left(m, now).contains_key(id) ==> invitations_left(m, now)[id] == m[id],
{
}

/// An endpoint redeems an invitation only of the authority and realm that it trusts, and only
/// before it expires.
pub proof fn law_invitation_does_not_replace_trust(
    i: EnrollmentInviteView,
    t: TrustView,
    clock: Option<u64>,
)
    ensures
        ({
            let r = redeem_review(i, t, clock);
            let known = t.realm == i.contact.realm_id && t.root == i.contact.authority;
            &&& r is Ok <==> known && (clock matches Some(now) && now < i.expires_at)
            &&& !known ==> r == Err::<(), Error>(Error::Unauthorized)
            &&& known && clock is None ==> r == Err::<(), Error>(Error::Clock)
            &&& known ==> (clock matches Some(now) ==> now >= i.expires_at ==> r == Err::<
                (),
                Error,
            >(Error::CertificateExpired))
        }),
{
}

/// A certificate that comes with an answer is taken only if it is signed by the authority that the
/// endpoint trusts and is good for the endpoint itself.
pub proof fn law_certificate_that_comes_is_checked(
    kind: u8,
    b: Seq<u8>,
    t: TrustView,
    own: Seq<u8>,
    clock: Option<u64>,
)
    ensures
        redeemed_certificate(kind, b, t, own, clock) matches Ok(c) ==> {
            &&& kind == 2
            &&& certificate_of(c.bytes) == Ok::<ClaimsView, Error>(c.claims)
            &&& clock matches Some(now) && trust_verify(t, c, own, now) is Ok
        },
        kind != 2 ==> redeemed_certificate(kind, b, t, own, clock) == Err::<CertificateView, Error>(
            Error::Unauthorized,
        ),
{
}

/// An answer that brings a certificate is read as that certificate, if it is good for the one who
/// reads it. One that refuses is read as a refusal.
pub proof fn law_answer_is_read_back(
    c: CertificateView,
    e: Error,
    t: TrustView,
    own: Seq<u8>,
    now: u64,
)
    requires
        certificate_of(c.bytes) == Ok::<ClaimsView, Error>(c.claims),
        c.bytes.len() <= 15360,
    ensures
        ({
            let (kind, b) = redeem_reply(Ok(c));
            let r = redeemed_certificate(kind, b, t, own, Some(now));
            let good = trust_verify(t, c, own, now);
            &&& good is Ok ==> r == Ok::<CertificateView, Error>(c)
            &&& good matches Err(e) ==> r == Err::<CertificateView, Error>(e)
        }),
        redeemed_certificate(redeem_reply(Err(e)).0, redeem_reply(Err(e)).1, t, own, Some(now))
            == Err::<CertificateView, Error>(Error::Unauthorized),
{
    broadcast use {group_read_back, group_fields_back};

    lemma_nothing_after(bytes_item(c.bytes));
}

/// Invitations are given out only by an authority whose key is not the endpoint's own and whom the
/// endpoint trusts, within the limits for peers, topics and memory.
pub proof fn law_authority_is_apart_from_its_endpoint(a: AuthorityView, own: Seq<u8>, c: ConfigView)
    ensures
        ({
            let r = service_review(a, own, c);
            let apart = public_key(a.secret) != own && c.trust.root == public_key(a.secret)
                && c.trust.realm == a.realm;
            let sound = 1 <= c.max_peers <= 256 && 1 <= c.max_topics <= 256 && c.metadata_bytes
                >= 262144 && c.handshake_timeout > 0;
            &&& r is Ok <==> apart && sound
            &&& !apart ==> r == Err::<(), Error>(
                Error::Config("enrollment root and transport identity"),
            )
            &&& apart && !sound ==> r == Err::<(), Error>(Error::Config("enrollment limits"))
        }),
{
}

// Codes

/// A code is given out on the terms that were asked for: it lasts for the whole seconds of its
/// lifetime, goes by the digest of its secret, and nobody has used it. The other codes and the
/// members are as before.
pub proof fn law_code_keeps_its_terms(h: HostView, o: OptionsView, now: u64, secret: Seq<u8>)
    requires
        now + o.lifetime / 1_000_000_000 <= u64::MAX,
    ensures
        ({
            let w = code_added(h, o, now, secret);
            let id = sha256(encode_utf8("iroh-mq/join-code-id/v3"@) + secret).take(16);
            &&& w.authority == h.authority && w.members == h.members
            &&& w.codes.dom() == h.codes.dom().insert(id)
            &&& forall|k: Seq<u8>| #[trigger]
                h.codes.contains_key(k) && k != id ==> w.codes[k] == h.codes[k]
            &&& w.codes[id].hash == sha256(secret)
            &&& w.codes[id].expires == now + o.lifetime / 1_000_000_000
            &&& w.codes[id].options == o
            &&& w.codes[id].redeemed.dom() == Set::<Seq<u8>>::empty()
        }),
{
}

/// When a code can be given out, and what stops it: it has no more than 256 permissions and uses,
/// it and the certificates that it brings last from a second to ten years, there are not too many
/// codes, and such a certificate can be issued.
pub proof fn law_code_is_within_limits(
    h: HostView,
    o: OptionsView,
    a: AddressView,
    now: u64,
    max_codes: nat,
    trial: Seq<u8>,
)
    ensures
        ({
            let r = code_review(h, o, a, now, max_codes, trial);
            let sound = o.permissions.len() <= 256 && 1_000_000_000 <= o.lifetime <= 315_360_000
                * 1_000_000_000 && 1_000_000_000 <= o.certificate_lifetime <= 315_360_000
                * 1_000_000_000 && 1 <= o.max_uses <= 256;
            let made = issued(
                h.authority,
                trial,
                a.id,
                o.permissions,
                now,
                (now + o.certificate_lifetime / 1_000_000_000) as u64,
                o.limits,
            );
            &&& sound == options_valid(o)
            &&& !sound ==> r == Err::<nat, Error>(Error::Config("invalid join code limits"))
            &&& sound && h.codes.dom().len() >= max_codes ==> r == Err::<nat, Error>(
                Error::QueueFull,
            )
            &&& sound && h.codes.dom().len() < max_codes ==> (made matches Err(e) ==> r == Err::<
                nat,
                Error,
            >(e)) && (made is Ok ==> r == Ok::<nat, Error>(
                1024 + crate::admission::permissions_charge(o.permissions),
            ))
        }),
{
}

/// A code that is taken back is gone, and nothing else is.
pub proof fn law_code_is_taken_back(h: HostView, id: Seq<u8>, k: Seq<u8>)
    ensures
        ({
            let w = code_removed(h, id);
            &&& w.authority == h.authority && w.members == h.members
            &&& w.codes.contains_key(k) <==> h.codes.contains_key(k) && k != id
            &&& w.codes.contains_key(k) ==> w.codes[k] == h.codes[k]
        }),
{
}

/// Taking back a code stands if it was stored, and is undone if storing it failed.
pub proof fn law_code_is_taken_back_when_stored(
    h: HostView,
    id: Seq<u8>,
    r: Result<(), Error>,
    after: HostView,
    stored: bool,
    saved: Seq<SavedView>,
)
    requires
        revokes(h, id, r, after, stored, saved),
    ensures
        r is Ok ==> !after.codes.contains_key(id),
        r is Err ==> after == h,
        !stored ==> r is Ok && saved.len() == 0,
        stored && r is Ok ==> saved.len() == 1 && saved[0].result is Ok && saved[0].bytes
            == host_bytes(after),
        saved.len() == 1 && saved[0].result is Ok ==> r is Ok,
{
}

/// Members whose certificates have expired are forgotten, and no others.
pub proof fn law_expired_members_are_forgotten(h: HostView, now: u64, id: Seq<u8>)
    ensures
        ({
            let w = members_current(h, now);
            &&& w.codes == h.codes && w.authority == h.authority
            &&& w.members.contains_key(id) <==> h.members.contains_key(id) && now
                < h.members[id].claims.expires
            &&& w.members.contains_key(id) ==> w.members[id] == h.members[id]
        }),
        ({
            let w = pruned(h, now);
            &&& w.authority == h.authority
            &&& w.members == members_current(h, now).members
            &&& w.codes.contains_key(id) <==> h.codes.contains_key(id) && now < h.codes[id].expires
            &&& w.codes.contains_key(id) ==> w.codes[id] == h.codes[id]
        }),
{
}

/// Who may use a code: someone who knows its secret, before it expires. One who has used it gets
/// the same certificate again as long as that is good; once it has expired they may use the code
/// anew. One who has not needs a use that is left. Whoever is to get a new certificate needs room
/// among the members whose certificates last.
pub proof fn law_code_is_used_within_limits(
    h: HostView,
    peer: Seq<u8>,
    id: Seq<u8>,
    secret: Seq<u8>,
    now: u64,
    trust: TrustView,
    max_members: nat,
)
    ensures
        ({
            let r = enrollment_review(h, peer, id, secret, now, trust, max_members);
            let g = h.codes[id];
            let c = g.redeemed[peer];
            let open = h.codes.contains_key(id) && now < g.expires && g.hash == sha256(secret);
            let known = g.redeemed.contains_key(peer);
            let good = trust_check(trust, c.claims, peer, now);
            let again = known && good is Ok && now < c.claims.expires;
            let lapsed = known && ((good is Ok && now >= c.claims.expires) || good == Err::<
                (),
                Error,
            >(Error::CertificateExpired));
            let full = members_current(h, now).members.dom().len() >= max_members;
            &&& !open ==> r == Err::<Option<EnrollmentView>, Error>(Error::Unauthorized)
            &&& open && again ==> {
                &&& r is Ok && r->Ok_0 is Some
                &&& r->Ok_0->Some_0.certificate == c
                &&& r->Ok_0->Some_0.expires == g.expires
                &&& r->Ok_0->Some_0.trust == new_trust(
                    h.authority.realm,
                    public_key(h.authority.secret),
                )
            }
            &&& open && known && !again && !lapsed ==> r == Err::<Option<EnrollmentView>, Error>(
                good->Err_0,
            )
            &&& open && !known && g.redeemed.dom().len() >= g.options.max_uses ==> r == Err::<
                Option<EnrollmentView>,
                Error,
            >(Error::QueueFull)
            &&& open && (lapsed || (!known && g.redeemed.dom().len() < g.options.max_uses)) ==> if full {
                r == Err::<Option<EnrollmentView>, Error>(Error::QueueFull)
            } else {
                r == Ok::<Option<EnrollmentView>, Error>(None)
            }
        }),
{
}

/// The certificate that a code brings has the code's terms: its limits and its permissions, in the
/// name of the one who uses it, from now on and for the whole seconds that the code says, but never
/// longer than the host's own certificate.
pub proof fn law_code_brings_its_terms(
    h: HostView,
    peer: Seq<u8>,
    id: Seq<u8>,
    now: u64,
    host_expires: u64,
    certificate_id: Seq<u8>,
)
    ensures
        enrollment_certificate(h, peer, id, now, host_expires, certificate_id) matches Ok(c) ==> {
            let o = h.codes[id].options;
            &&& c.claims.subject == peer
            &&& c.claims.id == certificate_id
            &&& c.claims.limits == o.limits
            &&& c.claims.permissions.to_set() == o.permissions.to_set()
            &&& c.claims.permissions.len() == o.permissions.len()
            &&& c.claims.not_before == now
            &&& now + o.certificate_lifetime / 1_000_000_000 < host_expires ==> c.claims.expires
                == now + o.certificate_lifetime / 1_000_000_000
            &&& now + o.certificate_lifetime / 1_000_000_000 >= host_expires ==> c.claims.expires
                == host_expires
        },
{
    let o = h.codes[id].options;
    let until = now + o.certificate_lifetime / 1_000_000_000;
    let expires = if until < host_expires {
        until as u64
    } else {
        host_expires
    };
    law_certificate_has_its_terms(
        h.authority,
        certificate_id,
        peer,
        o.permissions,
        now,
        expires,
        o.limits,
    );
}

/// One who uses a code is from then on a member, and the code remembers what it brought them. The
/// terms of the code, the other codes and the other members are as before.
pub proof fn law_user_of_a_code_is_a_member(
    h: HostView,
    peer: Seq<u8>,
    id: Seq<u8>,
    c: CertificateView,
)
    requires
        h.codes.contains_key(id),
    ensures
        ({
            let w = peer_admitted(h, peer, id, c);
            &&& w.authority == h.authority
            &&& w.members == h.members.insert(c.claims.id, c)
            &&& w.codes.dom() == h.codes.dom()
            &&& forall|k: Seq<u8>| #[trigger]
                h.codes.contains_key(k) && k != id ==> w.codes[k] == h.codes[k]
            &&& w.codes[id].redeemed == h.codes[id].redeemed.insert(peer, c)
            &&& w.codes[id] == (GrantView { redeemed: w.codes[id].redeemed, ..h.codes[id] })
        }),
{
}

/// Using a code in vain leaves the codes as they were. What comes of using it is told together with
/// the authority to trust and the time until which the code lasts.
pub proof fn law_use_of_a_code_is_told(
    h: HostView,
    peer: Seq<u8>,
    id: Seq<u8>,
    secret: Seq<u8>,
    now: u64,
    host_expires: u64,
    trust: TrustView,
    max_members: nat,
    certificate_id: Seq<u8>,
    outcome: Result<EnrollmentView, Error>,
    after: HostView,
    stored: bool,
    asked: Seq<AskedView>,
    saved: Seq<SavedView>,
)
    requires
        enrolls(
            h,
            peer,
            id,
            secret,
            now,
            host_expires,
            trust,
            max_members,
            certificate_id,
            outcome,
            after,
            stored,
            asked,
            saved,
        ),
    ensures
        after.authority == h.authority,
        outcome is Err ==> after.codes == h.codes,
        asked.len() > 0 ==> asked[0].bytes == 1024,
        asked.len() > 1 ==> (enrollment_certificate(
            h,
            peer,
            id,
            now,
            host_expires,
            certificate_id,
        ) matches Ok(c) ==> asked[1].bytes == 4 * c.bytes.len() + 16384),
        stored && saved.len() > 0 && outcome is Ok ==> saved[0].bytes == host_bytes(after)
            && saved[0].result is Ok,
        outcome is Ok && after.codes != h.codes ==> (stored <==> saved.len() == 1),
        outcome matches Ok(e) ==> {
            &&& h.codes.contains_key(id) && now < h.codes[id].expires && h.codes[id].hash == sha256(
                secret,
            )
            &&& e.expires == h.codes[id].expires
            &&& e.trust.realm == h.authority.realm
            &&& e.trust.root == public_key(h.authority.secret)
            &&& after.codes[id].redeemed.contains_key(peer)
            &&& after.codes[id].redeemed[peer] == e.certificate
            &&& after.codes[id].options == h.codes[id].options
            &&& forall|other: Seq<u8>| #[trigger]
                h.codes[id].redeemed.contains_key(other) && other != peer
                    ==> after.codes[id].redeemed.contains_key(other)
                    && after.codes[id].redeemed[other] == h.codes[id].redeemed[other]
        },
        forall|k: Seq<u8>| #[trigger]
            h.codes.contains_key(k) && k != id ==> after.codes.contains_key(k) && after.codes[k]
                == h.codes[k],
{
}

/// A code that is given out names its host and its secret, and stands if it was stored.
pub proof fn law_code_is_given_out_when_stored(
    h: HostView,
    o: OptionsView,
    a: AddressView,
    now: u64,
    max_codes: nat,
    trial: Seq<u8>,
    secret: Seq<u8>,
    outcome: Result<CodeView, Error>,
    after: HostView,
    stored: bool,
    asked: Seq<AskedView>,
    saved: Seq<SavedView>,
)
    requires
        gives_code(
            h,
            o,
            a,
            now,
            max_codes,
            trial,
            secret,
            outcome,
            after,
            stored,
            asked,
            saved,
        ),
    ensures
        after.authority == h.authority,
        after.members == h.members,
        outcome matches Ok(c) ==> {
            &&& c.secret == secret
            &&& c.address.id == a.id
            &&& code_text(c) is Ok
            &&& after == code_added(h, o, now, secret)
            &&& stored ==> saved.len() == 1 && saved[0].result is Ok && saved[0].bytes == host_bytes(
                after,
            )
            &&& asked.len() == 1 && asked[0].bytes == 1024
                + crate::admission::permissions_charge(o.permissions)
        },
        code_review(h, o, a, now, max_codes, trial) is Ok && asked.len() == 1
            && asked[0].refusal is None && code_text(
            CodeView { address: compact(a), secret },
        ) is Ok && (!stored || (saved.len() == 1 && saved[0].result is Ok)) ==> outcome is Ok,
        code_review(h, o, a, now, max_codes, trial) matches Err(e) ==> outcome == Err::<
            CodeView,
            Error,
        >(e),
        outcome is Err ==> forall|k: Seq<u8>| #[trigger]
            after.codes.contains_key(k) ==> h.codes.contains_key(k) && after.codes[k] == h.codes[k],
        outcome is Err ==> forall|k: Seq<u8>| #[trigger]
            h.codes.contains_key(k) && k != code_id(secret) ==> after.codes.contains_key(k),
{
}

/// A host that is new has its authority, no code and no member.
pub proof fn law_new_host_has_nobody(a: AuthorityView, id: Seq<u8>)
    ensures
        empty_host(a).authority == a,
        !empty_host(a).codes.contains_key(id),
        !empty_host(a).members.contains_key(id),
{
}

/// A host admits exactly the certificates of its members, each from its subject. An endpoint that
/// joined a host admits that host and nobody else.
pub proof fn law_only_members_are_admitted(a: AdmissionView, peer: Seq<u8>, c: CertificateView)
    ensures
        a matches AdmissionView::Host(h) ==> (admits(a, peer, c) <==> h.members.contains_key(
            c.claims.id,
        ) && h.members[c.claims.id].claims.subject == peer),
        a matches AdmissionView::Client(host) ==> (admits(a, peer, c) <==> peer == host),
{
}

/// What a request to join is answered is told apart by its kind: an enrollment is ready, anything
/// else is refused, with a reason of its own where the host is full.
pub proof fn law_answer_to_joining(outcome: Result<EnrollmentView, Error>)
    ensures
        outcome is Ok <==> reply_to(outcome).0 == 2,
        outcome is Err <==> reply_to(outcome).0 == 11,
        outcome == Err::<EnrollmentView, Error>(Error::QueueFull) ==> reply_to(outcome)
            == reply_to(Err(Error::QueueFull)),
        outcome matches Err(e) ==> !(e is QueueFull) ==> reply_to(outcome) == reply_to(
            Err(Error::Unauthorized),
        ),
{
}

/// An enrollment is taken only from a host whose certificate for the endpoint is good, and, where
/// the endpoint already trusts someone, only from that authority.
pub proof fn law_enrollment_is_checked(
    kind: u8,
    b: Seq<u8>,
    peer: Seq<u8>,
    expected: Option<TrustView>,
    now: u64,
)
    ensures
        reply_of(kind, b, peer, expected, now) matches Ok(e) ==> {
            &&& kind == 2
            &&& now < e.expires
            &&& certificate_of(e.certificate.bytes) == Ok::<ClaimsView, Error>(e.certificate.claims)
            &&& expected matches Some(t) ==> t.root == e.trust.root && t.realm == e.trust.realm
                && trust_verify(t, e.certificate, peer, now) is Ok
            &&& expected is None ==> trust_verify(e.trust, e.certificate, peer, now) is Ok
            &&& e.trust == new_trust(e.trust.realm, e.trust.root)
        },
        kind != 2 && kind != 11 ==> reply_of(kind, b, peer, expected, now) == Err::<
            EnrollmentView,
            Error,
        >(Error::Protocol("join response")),
        kind == 11 ==> reply_of(kind, b, peer, expected, now) is Err,
{
}

/// A list of revoked certificates that is well written is refused, and nothing is taken over from
/// it, where it is of another realm, is not newer than what is known, is from the future, or is
/// over; and where there would be too many.
pub proof fn law_revocations_are_refused(
    t: TrustView,
    realm: Seq<u8>,
    version: u64,
    issued: u64,
    expires: u64,
    ids: Seq<Seq<u8>>,
    now: u64,
)
    requires
        realm.len() == 16,
        ids.len() <= 4096,
        forall|i: int| 0 <= i < ids.len() ==> (#[trigger] ids[i]).len() == 16,
    ensures
        ({
            let r = trust_apply_list(
                t,
                revocation_bytes(realm, version, issued, expires, ids),
                now,
            );
            let due = realm == t.realm && version > t.version && issued <= now < expires;
            &&& !due ==> r == Err::<TrustView, Error>(Error::Unauthorized)
            &&& due && t.revoked.union(ids.to_set()).len() > 4096 ==> r == Err::<TrustView, Error>(
                Error::QueueFull,
            )
            &&& due && t.revoked.union(ids.to_set()).len() <= 4096 ==> r is Ok
        }),
{
    broadcast use {group_read_back, group_fields_back};

    let put = id_put();
    let take = id_take();
    let none = Seq::<u8>::empty();
    assert forall|i: int, s: Seq<u8>| 0 <= i < ids.len() implies #[trigger] take(put(ids[i]) + s)
        == Ok::<(Seq<u8>, Seq<u8>), Error>((ids[i], s)) by {
        lemma_take_fixed(ids[i], 16, s);
    }
    lemma_take_all(ids, none, put, take);
    lemma_nothing_after(put_all(ids, put));
}

/// Claims are sound exactly when they last for some time, have no more than 256 permissions, each
/// of which grants something, and the topics of the permissions are in order, none twice.
pub proof fn law_claims_are_sound(c: ClaimsView)
    ensures
        claims_check(c) is Ok <==> {
            &&& c.not_before < c.expires
            &&& c.permissions.len() <= 256
            &&& forall|i: int|
                0 <= i < c.permissions.len() ==> (#[trigger] c.permissions[i]).publish
                    || c.permissions[i].subscribe
            &&& forall|i: int, j: int|
                0 <= i < j < c.permissions.len() ==> text_less(
                    (#[trigger] c.permissions[i]).topic,
                    (#[trigger] c.permissions[j]).topic,
                )
        },
{
}

/// What a realm takes that was read back: for each code a kilobyte and what its permissions take,
/// and for each member a kilobyte.
pub proof fn law_realm_has_its_price(h: HostView, o: OptionsView, c: CertificateView)
    ensures
        grant_charge(o) == 1024 + crate::admission::permissions_charge(o.permissions),
        certificate_charge(c) == 4 * c.bytes.len() + 16384,
        realm_charges(h).len() == code_list(h).len() + member_list(h).len(),
        forall|i: int|
            0 <= i < code_list(h).len() ==> #[trigger] realm_charges(h)[i] == 1024
                + crate::admission::permissions_charge(code_list(h)[i].1.options.permissions),
        forall|i: int|
            code_list(h).len() <= i < realm_charges(h).len() ==> #[trigger] realm_charges(h)[i]
                == 1024,
{
}

} // verus!
