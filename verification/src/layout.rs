//! How what endpoints send each other, and what they keep, is laid out in bytes, item by item.
use crate::address::{compact, ip_list, relay_list, AddressView, SocketView};
use crate::admission::{
    code_list, grant_bytes, grant_put, host_bytes, member_list, member_put, options_bytes,
    redeemed_list, redeemed_put, GrantView, HostView,
};
use crate::armor::spelled;
use crate::auth::{
    claims_bytes, id_put, permission_bytes, permission_put, revocation_bytes, ClaimsView,
    PermissionView,
};
use crate::bootstrap::{
    enrollment_bytes, refusal_bytes, refusal_reason, request_bytes, EnrollmentView,
};
use crate::cbor::{array_head, bytes_item, empty_map_item, head, text_item, uint_item};
use crate::cose::{container, signed_bytes};
use crate::enrollment::{
    enrollment_invite_of, enrollment_payload, enrollment_text, redeem_bytes, redeem_reply,
    EnrollmentInviteView,
};
use crate::error::Error;
use crate::invite::{invite_of, invite_payload, invite_text, label_put, InviteView};
use crate::join::{
    code_of, code_text, route_bytes, route_put, routes_of, CodeView, OptionsView, RouteView,
};
use crate::message::{envelope_bytes, DeliveryMode, EnvelopeView};
use crate::octets::{be_bytes, lemma_be_bytes_len, lemma_concat_assoc};
use crate::record::put_all;
use crate::wire::{
    control_bytes, control_kind, data_bytes, header_bytes, hello_bytes, ready_bytes, ControlView,
    Header, HelloView,
};
use vstd::prelude::*;
use vstd::utf8::encode_utf8;

verus! {

// Items

/// A number below 24 is written in one byte together with what kind of item it belongs to; a larger
/// one behind such a byte, in the fewest of one, two, four and eight bytes.
pub proof fn law_numbers_are_short(major: nat, n: u64)
    requires
        major < 8,
    ensures
        head(major, n).len() >= 1,
        head(major, n)[0] / 32 == major,
        n < 24 ==> head(major, n).len() == 1 && head(major, n)[0] % 32 == n,
        24 <= n < 0x100 ==> head(major, n).len() == 2 && head(major, n)[0] % 32 == 24,
        0x100 <= n < 0x1_0000 ==> head(major, n).len() == 3 && head(major, n)[0] % 32 == 25,
        0x1_0000 <= n < 0x1_0000_0000 ==> head(major, n).len() == 5 && head(major, n)[0] % 32 == 26,
        0x1_0000_0000 <= n ==> head(major, n).len() == 9 && head(major, n)[0] % 32 == 27,
{
    lemma_be_bytes_len(n as nat, 1);
    lemma_be_bytes_len(n as nat, 2);
    lemma_be_bytes_len(n as nat, 4);
    lemma_be_bytes_len(n as nat, 8);
}

/// Numbers, bytes, texts and lists are items of different kinds; bytes and texts follow their
/// length.
pub proof fn law_items_have_kinds(n: u64, b: Seq<u8>, s: Seq<char>)
    ensures
        uint_item(n) == head(0, n),
        bytes_item(b) == head(2, b.len() as u64) + b,
        text_item(s) == head(3, encode_utf8(s).len() as u64) + encode_utf8(s),
        array_head(n) == head(4, n),
        empty_map_item() == head(5, 0),
{
    reveal(uint_item);
    reveal(bytes_item);
    reveal(text_item);
    reveal(array_head);
    reveal(empty_map_item);
}

// What is signed

/// A signature is of the words `Signature1`, the header that names the algorithm, the purpose and
/// what is signed.
pub proof fn law_what_a_signature_is_of(payload: Seq<u8>, context: Seq<u8>, signature: Seq<u8>)
    ensures
        signed_bytes(payload, context) == array_head(4) + text_item("Signature1"@) + bytes_item(
            seq![0xa1u8, 0x01u8, 0x27u8],
        ) + bytes_item(context) + bytes_item(payload),
        container(payload, signature) == array_head(4) + bytes_item(seq![0xa1u8, 0x01u8, 0x27u8])
            + empty_map_item() + bytes_item(payload) + bytes_item(signature),
{
    broadcast use lemma_concat_assoc;

}

/// An envelope is twelve items: its version, the identity of the message, when it was made and
/// ends, its format, the length and the digest of its payload, and its mode.
pub proof fn law_layout_of_an_envelope(e: EnvelopeView)
    ensures
        e.mode == DeliveryMode::BestEffort ==> envelope_bytes(e) == array_head(12) + uint_item(1)
            + bytes_item(e.id.realm_id) + bytes_item(e.id.publisher_endpoint_id) + bytes_item(
            e.id.publisher_epoch,
        ) + text_item(e.id.topic) + uint_item(e.id.sequence) + uint_item(e.created) + uint_item(
            e.expires,
        ) + text_item(e.format) + uint_item(e.len) + bytes_item(e.digest) + uint_item(0),
        e.mode == DeliveryMode::Acknowledged ==> envelope_bytes(e) == array_head(12) + uint_item(1)
            + bytes_item(e.id.realm_id) + bytes_item(e.id.publisher_endpoint_id) + bytes_item(
            e.id.publisher_epoch,
        ) + text_item(e.id.topic) + uint_item(e.id.sequence) + uint_item(e.created) + uint_item(
            e.expires,
        ) + text_item(e.format) + uint_item(e.len) + bytes_item(e.digest) + uint_item(1),
{
    broadcast use lemma_concat_assoc;

}

/// Claims are nine items: their version, the realm, the issuer, their identifier, their subject,
/// when they begin and end, the permissions, and the limits. A permission is its topic and one for
/// publishing plus two for subscribing.
pub proof fn law_layout_of_claims(c: ClaimsView, p: PermissionView)
    ensures
        claims_bytes(c) == array_head(9) + uint_item(1) + bytes_item(c.realm) + bytes_item(c.issuer)
            + bytes_item(c.id) + bytes_item(c.subject) + uint_item(c.not_before) + uint_item(
            c.expires,
        ) + array_head(c.permissions.len() as u64) + put_all(c.permissions, permission_put())
            + array_head(2) + uint_item(c.limits.max_payload) + uint_item(
            c.limits.max_subscriptions,
        ),
        permission_bytes(p) == array_head(2) + text_item(p.topic) + uint_item(
            ((if p.publish {
                1int
            } else {
                0
            }) + (if p.subscribe {
                2int
            } else {
                0
            })) as u64,
        ),
{
    broadcast use lemma_concat_assoc;

}

/// A list of revoked certificates is six items: its version, the realm, its number, when it was
/// made and ends, and the identifiers.
pub proof fn law_layout_of_revocations(
    realm: Seq<u8>,
    version: u64,
    issued: u64,
    expires: u64,
    ids: Seq<Seq<u8>>,
)
    ensures
        revocation_bytes(realm, version, issued, expires, ids) == array_head(6) + uint_item(1)
            + bytes_item(realm) + uint_item(version) + uint_item(issued) + uint_item(expires)
            + array_head(ids.len() as u64) + put_all(ids, id_put()),
{
    broadcast use lemma_concat_assoc;

}

/// A list of items is laid out one after the other.
pub proof fn law_layout_of_lists(
    ids: Seq<Seq<u8>>,
    id: Seq<u8>,
    ps: Seq<PermissionView>,
    p: PermissionView,
)
    ensures
        put_all(ids.push(id), id_put()) == put_all(ids, id_put()) + bytes_item(id),
        put_all(ps.push(p), permission_put()) == put_all(ps, permission_put()) + permission_bytes(p),
        put_all(Seq::<Seq<u8>>::empty(), id_put()).len() == 0,
{
    assert(ids.push(id).drop_last() =~= ids);
    assert(ps.push(p).drop_last() =~= ps);
}

// Sessions

/// A greeting is six items: its version, the certificate, the nonce, and the limits. The answer to
/// it is three: its version and both nonces.
pub proof fn law_layout_of_a_handshake(h: HelloView, local: Seq<u8>, remote: Seq<u8>)
    ensures
        hello_bytes(h) == array_head(6) + uint_item(1) + bytes_item(h.cert) + bytes_item(h.nonce)
            + uint_item(h.max_payload) + uint_item(h.max_topics) + uint_item(h.window_secs),
        ready_bytes(local, remote) == array_head(3) + uint_item(1) + bytes_item(local) + bytes_item(
            remote,
        ),
{
    broadcast use lemma_concat_assoc;

}

/// Records have numbers: three to subscribe, four to answer that, five to unsubscribe, six for
/// room, eight for what was processed, nine for what was refused, eleven for an error and twelve
/// for goodbye.
pub proof fn law_records_have_numbers(
    topic: Seq<char>,
    sub: Seq<u8>,
    mode: DeliveryMode,
    epoch: Seq<u8>,
    n: u64,
    code: u64,
)
    ensures
        control_kind(ControlView::Subscribe { topic, sub, mode }) == 3,
        control_kind(ControlView::Suback { topic, sub, code }) == 4,
        control_kind(ControlView::Unsubscribe { topic, sub }) == 5,
        control_kind(ControlView::Credit { topic, sub, bytes: n }) == 6,
        control_kind(ControlView::RequestCredit { topic, sub, bytes: n }) == 6,
        code == 0 ==> control_kind(
            ControlView::Outcome { topic, sub, epoch, sequence: n, code },
        ) == 8,
        code != 0 ==> control_kind(
            ControlView::Outcome { topic, sub, epoch, sequence: n, code },
        ) == 9,
        control_kind(ControlView::Error(code)) == 11,
        control_kind(ControlView::Goodbye) == 12,
{
}

/// A record is its version, the session, and what it says, in order.
pub proof fn law_layout_of_records(
    session: Seq<u8>,
    topic: Seq<char>,
    sub: Seq<u8>,
    epoch: Seq<u8>,
    n: u64,
    code: u64,
)
    ensures
        control_bytes(
            ControlView::Subscribe { topic, sub, mode: DeliveryMode::BestEffort },
            session,
        ) == array_head(5) + uint_item(1) + bytes_item(session) + text_item(topic) + bytes_item(sub)
            + uint_item(0),
        control_bytes(
            ControlView::Subscribe { topic, sub, mode: DeliveryMode::Acknowledged },
            session,
        ) == array_head(5) + uint_item(1) + bytes_item(session) + text_item(topic) + bytes_item(sub)
            + uint_item(1),
        control_bytes(ControlView::Suback { topic, sub, code }, session) == array_head(5)
            + uint_item(1) + bytes_item(session) + text_item(topic) + bytes_item(sub) + uint_item(
            code,
        ),
        control_bytes(ControlView::Unsubscribe { topic, sub }, session) == array_head(4)
            + uint_item(1) + bytes_item(session) + text_item(topic) + bytes_item(sub),
        control_bytes(ControlView::Credit { topic, sub, bytes: n }, session) == array_head(6)
            + uint_item(1) + bytes_item(session) + text_item(topic) + bytes_item(sub) + uint_item(1)
            + uint_item(n),
        control_bytes(ControlView::RequestCredit { topic, sub, bytes: n }, session) == array_head(6)
            + uint_item(1) + bytes_item(session) + text_item(topic) + bytes_item(sub) + uint_item(0)
            + uint_item(n),
        control_bytes(ControlView::Outcome { topic, sub, epoch, sequence: n, code }, session)
            == array_head(7) + uint_item(1) + bytes_item(session) + text_item(topic) + bytes_item(
            sub,
        ) + bytes_item(epoch) + uint_item(n) + uint_item(code),
        control_bytes(ControlView::Error(code), session) == array_head(3) + uint_item(1)
            + bytes_item(session) + uint_item(code),
        control_bytes(ControlView::Goodbye, session) == array_head(2) + uint_item(1) + bytes_item(
            session,
        ),
{
    broadcast use lemma_concat_assoc;

    assert(bytes_item(session) + Seq::<u8>::empty() =~= bytes_item(session));
}

/// The metadata of a message are four items: their version, the session, the subscription and the
/// signed envelope.
pub proof fn law_layout_of_data(session: Seq<u8>, sub: Seq<u8>, envelope: Seq<u8>)
    ensures
        data_bytes(session, sub, envelope) == array_head(4) + uint_item(1) + bytes_item(session)
            + bytes_item(sub) + bytes_item(envelope),
{
    broadcast use lemma_concat_assoc;

}

/// A frame begins with twelve bytes: how long all of it is, what it is, three zeros, and how long
/// its metadata are.
pub proof fn law_layout_of_a_frame(h: Header)
    requires
        h.metadata + h.payload <= u32::MAX,
    ensures
        header_bytes(h).len() == 12,
        header_bytes(h)[4] == h.kind,
        header_bytes(h)[5] == 0 && header_bytes(h)[6] == 0 && header_bytes(h)[7] == 0,
        header_bytes(h).take(4) == be_bytes((h.metadata + h.payload) as nat, 4),
        header_bytes(h).skip(8) == be_bytes(h.metadata as nat, 4),
{
    lemma_be_bytes_len((h.metadata + h.payload) as nat, 4);
    lemma_be_bytes_len(h.metadata as nat, 4);
    assert(header_bytes(h).take(4) =~= be_bytes((h.metadata + h.payload) as nat, 4));
    assert(header_bytes(h).skip(8) =~= be_bytes(h.metadata as nat, 4));
}

// Joining

/// A request to join is its version, two, the identifier of the code and its secret. An enrollment
/// is the version, the realm, the authority, when the code ends, and the certificate. A refusal is
/// the version and a reason: two where the host is full, else one.
pub proof fn law_layout_of_joining(
    id: Seq<u8>,
    secret: Seq<u8>,
    e: EnrollmentView,
    reason: u64,
    error: Error,
)
    ensures
        request_bytes(id, secret) == array_head(3) + uint_item(2) + bytes_item(id) + bytes_item(
            secret,
        ),
        enrollment_bytes(e) == array_head(5) + uint_item(2) + bytes_item(e.trust.realm) + bytes_item(
            e.trust.root,
        ) + uint_item(e.expires) + bytes_item(e.certificate.bytes),
        refusal_bytes(reason) == array_head(2) + uint_item(2) + uint_item(reason),
        error is QueueFull ==> refusal_reason(error) == 2,
        !(error is QueueFull) ==> refusal_reason(error) == 1,
{
    broadcast use lemma_concat_assoc;

}

/// A request to redeem an invitation is its version, one, the identifier of the invitation and its
/// secret. The answer is the version and the certificate, or the version and one.
pub proof fn law_layout_of_redeeming(
    id: Seq<u8>,
    secret: Seq<u8>,
    r: Result<crate::auth::CertificateView, Error>,
)
    ensures
        redeem_bytes(id, secret) == array_head(3) + uint_item(1) + bytes_item(id) + bytes_item(
            secret,
        ),
        r matches Ok(c) ==> redeem_reply(r) == (
            2u8,
            array_head(2) + uint_item(1) + bytes_item(c.bytes),
        ),
        r is Err ==> redeem_reply(r) == (11u8, array_head(2) + uint_item(1) + uint_item(1)),
{
    broadcast use lemma_concat_assoc;

}

/// An invitation spells its version, its contact, when it ends, its identifier and its secret. A
/// contact spells its version, the realm, the authority, the host, and where the host is to be
/// found.
pub proof fn law_layout_of_invitations(i: EnrollmentInviteView, contact: Seq<char>, c: InviteView)
    ensures
        enrollment_payload(i, contact) == array_head(5) + uint_item(1) + text_item(contact)
            + uint_item(i.expires_at) + bytes_item(i.id) + bytes_item(i.secret),
        invite_payload(c) == array_head(5) + uint_item(1) + bytes_item(c.realm_id) + bytes_item(
            c.authority,
        ) + bytes_item(c.host) + array_head((c.ips.len() + c.relays.len()) as u64) + put_all(
            c.ips + c.relays,
            label_put(),
        ),
{
    broadcast use lemma_concat_assoc;

}

/// A code is written as `rtn-mq://join/` and the spelling of its version, three, the host, the ways
/// to it and the secret. It has one to sixteen ways, and no relay of more than a kilobyte.
pub proof fn law_layout_of_a_code(c: CodeView)
    ensures
        ({
            let a = compact(c.address);
            let n = ip_list(a).len() + relay_list(a).len();
            let long = exists|i: int|
                0 <= i < relay_list(a).len() && encode_utf8((#[trigger] relay_list(a)[i]).0).len()
                    > 1024;
            &&& n == 0 || n > 16 ==> code_text(c) == Err::<Seq<char>, Error>(
                Error::Protocol("join address count"),
            )
            &&& 1 <= n <= 16 && long ==> code_text(c) == Err::<Seq<char>, Error>(
                Error::MessageTooLarge,
            )
            &&& 1 <= n <= 16 && !long ==> code_text(c) == Ok::<Seq<char>, Error>(
                "rtn-mq://join/"@ + spelled(
                    array_head(4) + uint_item(3) + bytes_item(a.id) + array_head(n as u64)
                        + put_all(routes_of(a), route_put()) + bytes_item(c.secret),
                ),
            )
        }),
{
    broadcast use lemma_concat_assoc;

    let a = compact(c.address);
    assert(routes_of(a).len() == ip_list(a).len() + relay_list(a).len());
}

/// A way to a host is its kind and where it leads: zero for an address of six bytes, one for one of
/// twenty-six, two for a relay. Addresses come first, then relays.
pub proof fn law_layout_of_ways(a: AddressView, bytes: Seq<u8>, url: Seq<char>, i: int)
    ensures
        route_bytes(RouteView::Ip(SocketView { v6: false, bytes })) == array_head(2) + uint_item(0)
            + bytes_item(bytes),
        route_bytes(RouteView::Ip(SocketView { v6: true, bytes })) == array_head(2) + uint_item(1)
            + bytes_item(bytes),
        route_bytes(RouteView::Relay(url)) == array_head(2) + uint_item(2) + text_item(url),
        0 <= i < ip_list(a).len() ==> routes_of(a)[i] == RouteView::Ip(ip_list(a)[i].0),
        ip_list(a).len() <= i < routes_of(a).len() ==> routes_of(a)[i] == RouteView::Relay(
            relay_list(a)[i - ip_list(a).len()].0,
        ),
{
    broadcast use lemma_concat_assoc;

}

/// A code that is read begins with its prefix, is no longer than 32 kilobytes, and is written as it
/// would be written.
pub proof fn law_code_that_is_read(text: Seq<char>)
    ensures
        encode_utf8(text).len() > 32768 ==> code_of(text) == Err::<CodeView, Error>(
            Error::MessageTooLarge,
        ),
        encode_utf8(text).len() <= 32768 && !encode_utf8("rtn-mq://join/"@).is_prefix_of(
            encode_utf8(text),
        ) ==> code_of(text) == Err::<CodeView, Error>(Error::Protocol("join code prefix")),
        code_of(text) matches Ok(c) ==> code_text(c) == Ok::<Seq<char>, Error>(text),
{
}

/// A contact has no more than sixteen addresses, none of more than a kilobyte.
pub proof fn law_contact_is_short(i: InviteView)
    ensures
        ({
            let all = i.ips + i.relays;
            let short = all.len() <= 16 && forall|k: int|
                0 <= k < all.len() ==> encode_utf8(#[trigger] all[k]).len() <= 1024;
            &&& short ==> invite_text(i) == Ok::<Seq<char>, Error>(spelled(invite_payload(i)))
            &&& !short ==> invite_text(i) == Err::<Seq<char>, Error>(Error::MessageTooLarge)
        }),
        forall|text: Seq<char>| #[trigger]
            invite_of(text) matches Ok(c) ==> invite_text(c) == Ok::<Seq<char>, Error>(text)
                && encode_utf8(text).len() <= 24576,
        forall|text: Seq<char>| #[trigger]
            enrollment_invite_of(text) matches Ok(c) ==> enrollment_text(c) == Ok::<
                Seq<char>,
                Error,
            >(text) && encode_utf8(text).len() <= 32768,
{
}

// What a host keeps

/// What is kept of a host is its version, its key, the realm, its codes, its members, and a list
/// that is empty. A code is its identifier, the digest of its secret, when it ends, what it grants,
/// and what it has brought to whom.
pub proof fn law_layout_of_a_host(
    h: HostView,
    id: Seq<u8>,
    g: GrantView,
    o: OptionsView,
    rest: Seq<u8>,
)
    ensures
        host_bytes(h) == array_head(6) + uint_item(1) + bytes_item(h.authority.secret) + bytes_item(
            h.authority.realm,
        ) + array_head(code_list(h).len() as u64) + put_all(code_list(h), grant_put()) + array_head(
            member_list(h).len() as u64,
        ) + put_all(member_list(h), member_put()) + array_head(0),
        grant_bytes((id, g)) == array_head(9) + bytes_item(id) + bytes_item(g.hash) + uint_item(
            g.expires,
        ) + options_bytes(
            g.options,
            array_head(redeemed_list(g).len() as u64) + put_all(redeemed_list(g), redeemed_put()),
        ),
        options_bytes(o, rest) == uint_item((o.lifetime / 1_000_000_000) as u64) + uint_item(
            (o.certificate_lifetime / 1_000_000_000) as u64,
        ) + uint_item(o.max_uses as u64) + array_head(2) + uint_item(o.limits.max_payload)
            + uint_item(o.limits.max_subscriptions) + array_head(o.permissions.len() as u64)
            + put_all(o.permissions, permission_put()) + rest,
{
    broadcast use lemma_concat_assoc;

}

} // verus!
