//! The rules that every endpoint goes by, whoever it talks to: what settings are sound, what a
//! topic is, how answers are understood, and how memory is set aside and given back.
use crate::address::{compact, AddressView, EndpointAddr, RelayUrl, SocketAddress, SocketView};
use crate::allowances::{
    after_return, after_set_aside, can_set_aside, funding_refusal, AllowanceView, Allowances,
    CreditCharge, FundsView, SourcesView,
};
use crate::auth::{certificate_of, trust_verify, CertificateView, ClaimsView, Trust, TrustView};
use crate::bootstrap::{accepts_request, may_redeem};
use crate::buffer::{
    after_release, after_releases, after_reserve, after_share, after_shrink, free_ticket,
    is_free_ticket, Budget, BudgetView, BufferPool, PayloadLease, Permit, PermitView, PoolView,
};
use crate::crypto::{EndpointId, Id};
use crate::endpoint::{
    default_config, nack_disposition, readiness, waited, Config, Disposition, PublishOptions,
    Receipt, RecipientOutcome, ShutdownMode, SubscriptionOptions, Waiting,
};
use crate::enrollment::{accepts_redeem, Attempts, InvitationTerms};
use crate::error::Error;
use crate::files::{check_state_size, FileFacts};
use crate::identity::Identity;
use crate::join::{JoinCode, JoinOptions};
use crate::message::{
    mode_number, mode_of, signed_envelope_of, valid_topic, DeliveryMode, Nack, Topic,
};
use crate::octets::be_value;
use crate::queue::{settle_poll, settle_room, settle_send, Polled};
use crate::session::{
    binding_view, check_kind, check_protocol, check_ready, dialed, frame_scratch, greeting_of,
    protocol_named, protocol_text, stream_only, write_outcome, DataStream, Protocol, RateLimit,
    Streams,
};
use crate::time::Duration;
use crate::wire::{control_of, data_of, hello_of, ready_bytes, Header, HelloView};
use vstd::prelude::*;
use vstd::utf8::encode_utf8;

verus! {

// Settings

/// What a new endpoint is set to.
pub proof fn law_new_settings(trust: Trust, c: Config)
    requires
        call_ensures(Config::new, (trust,), c),
    ensures
        c@.trust == trust@,
        c.relay_mode is Default,
        !c.relay_only,
        c.bind_addr is None,
        c.max_payload == 1_048_576,
        c.payload_bytes == 134_217_728,
        c.metadata_bytes == 33_554_432,
        c.max_peers == 256,
        c.max_topics == 256,
        c.ingress_slots == 1024,
        c.per_peer_messages == 1024,
        c.per_peer_bytes == 16_777_216,
        c.subscription_messages == 1024,
        c.subscription_bytes == 16_777_216,
        c.delivery_window@ == 300_000_000_000,
        c.retry_interval@ == 30_000_000_000,
        c.handshake_timeout@ == 10_000_000_000,
{
    assert(c@ == default_config(trust@));
    assert(c@.relay_only == c.relay_only);
}

/// Settings are sound exactly when relays are on wherever they are all there is, a payload is of a
/// megabyte at most and fits what is set aside for payloads and for every queue, the counts are
/// within their bounds, and the times are neither nothing nor too long.
pub proof fn law_sound_settings(c: Config, r: Result<(), Error>)
    requires
        call_ensures(Config::validate, (&c,), r),
    ensures
        r is Ok <==> {
            &&& c.relay_only ==> !(c.relay_mode is Disabled)
            &&& 1 <= c.max_payload <= 1_048_576
            &&& c.payload_bytes >= c.max_payload + 256
            &&& c.metadata_bytes >= 262_144
            &&& 1 <= c.max_peers <= 256
            &&& 1 <= c.max_topics <= 256
            &&& 1 <= c.ingress_slots <= 65_536
            &&& 1 <= c.per_peer_messages <= 65_536
            &&& 1 <= c.subscription_messages <= 65_536
            &&& c.per_peer_bytes >= c.max_payload + 16_396
            &&& c.subscription_bytes >= c.max_payload + 16_396
            &&& 1_000_000_000 <= c.delivery_window@ <= 300_000_000_000
            &&& c.retry_interval@ > 0
            &&& c.handshake_timeout@ > 0
            &&& c@.trust.clock_skew_secs <= 300
        },
        r matches Err(e) ==> e == Error::Config("invalid endpoint limits"),
{
}

/// Messages are acknowledged unless it is asked otherwise, last five minutes and are of no
/// particular format.
pub proof fn law_default_options(
    a: SubscriptionOptions,
    b: SubscriptionOptions,
    p: PublishOptions,
)
    requires
        call_ensures(SubscriptionOptions::acknowledged, (), a),
        call_ensures(SubscriptionOptions::best_effort, (), b),
        call_ensures(<PublishOptions as Default>::default, (), p),
    ensures
        a.mode == DeliveryMode::Acknowledged,
        b.mode == DeliveryMode::BestEffort,
        p.mode == DeliveryMode::Acknowledged,
        p.lifetime@ == 300_000_000_000,
        p.format@ == "opaque"@,
{
}

/// A code may be used by everyone there may be for an hour, and brings certificates for an hour
/// with no ceilings of their own, unless it is asked otherwise.
pub proof fn law_default_code(permissions: Vec<crate::auth::Permission>, o: JoinOptions)
    requires
        call_ensures(JoinOptions::new, (permissions,), o),
    ensures
        o@.permissions == crate::auth::permission_views(permissions@),
        o@.limits.max_payload == 0 && o@.limits.max_subscriptions == 0,
        o@.lifetime == 3_600_000_000_000,
        o@.certificate_lifetime == 3_600_000_000_000,
        o@.max_uses == 256,
{
}

/// Whether a byte may stand in a topic: a digit, a letter, or one of `-`, `_`, `.` and `/`.
pub open spec fn may_stand_in_a_topic(b: u8) -> bool {
    ||| 48 <= b <= 57
    ||| 65 <= b <= 90
    ||| 97 <= b <= 122
    ||| b == 45 || b == 46 || b == 47 || b == 95
}

/// A topic is made of one to 256 bytes, of digits, letters and `-`, `_`, `.` and `/`, and no part
/// of it between slashes is empty.
pub proof fn law_topic_is_made_of_parts(name: Seq<char>)
    ensures
        valid_topic(name) <==> {
            let b = encode_utf8(name);
            &&& 1 <= b.len() <= 256
            &&& forall|i: int| 0 <= i < b.len() ==> may_stand_in_a_topic(#[trigger] b[i])
            &&& b[0] != 47 && b[b.len() - 1] != 47
            &&& forall|i: int, j: int|
                0 <= i && j == i + 1 && j < b.len() ==> !(#[trigger] b[i] == 47 && #[trigger] b[j]
                    == 47)
        },
{
    let b = encode_utf8(name);
    if valid_topic(name) {
        assert forall|i: int| 0 <= i < b.len() implies may_stand_in_a_topic(#[trigger] b[i]) by {
            assert(crate::message::topic_byte(b[i]));
        }
    }
    if forall|i: int| 0 <= i < b.len() ==> may_stand_in_a_topic(#[trigger] b[i]) {
        assert forall|i: int| 0 <= i < b.len() implies crate::message::topic_byte(#[trigger] b[i]) by {
            assert(may_stand_in_a_topic(b[i]));
        }
    }
}

/// A name that is no topic makes none, and one that is makes the topic of that name.
pub proof fn law_topic_has_its_name(s: &str, r: Result<Topic, Error>)
    requires
        call_ensures(Topic::new, (s,), r),
    ensures
        r is Ok <==> valid_topic(s@),
        r matches Ok(topic) ==> topic@ == s@,
        r matches Err(e) ==> e == Error::InvalidTopic,
{
}

/// The modes of delivery have the numbers zero and one, and no other number is a mode.
pub proof fn law_modes_have_numbers(n: u64)
    ensures
        mode_number(DeliveryMode::BestEffort) == 0,
        mode_number(DeliveryMode::Acknowledged) == 1,
        n == 0 ==> mode_of(n) == Ok::<DeliveryMode, Error>(DeliveryMode::BestEffort),
        n == 1 ==> mode_of(n) == Ok::<DeliveryMode, Error>(DeliveryMode::Acknowledged),
        n > 1 ==> mode_of(n) == Err::<DeliveryMode, Error>(Error::Protocol("delivery mode")),
{
}

/// An envelope that is taken from a peer is that peer's own, ends after it was made, and was signed
/// by the peer as a message.
pub proof fn law_envelope_is_its_senders(b: Seq<u8>, peer: Seq<u8>)
    ensures
        signed_envelope_of(b, peer) matches Ok(e) ==> {
            &&& e.id.publisher_endpoint_id == peer
            &&& e.created < e.expires
            &&& crate::cose::verified_payload(b, peer, encode_utf8("iroh-mq/message/v1"@), 4096)
                == Ok::<Seq<u8>, Error>(crate::message::envelope_bytes(e))
        },
{
}

// Answers

/// A handler that refuses a message, for now or for good, is taken at its word. One that says
/// nothing before it lets go of a message refuses it for now.
pub proof fn law_handler_is_taken_at_its_word(
    reason: Nack,
    d: Disposition,
    said: Disposition,
    left: Disposition,
)
    requires
        call_ensures(nack_disposition, (reason,), d),
        call_ensures(Disposition::abandoned, (said,), left),
    ensures
        reason is Retryable ==> d is Retryable,
        reason is Permanent ==> d is Permanent,
        said is Open ==> left is Retryable,
        !(said is Open) ==> left == said,
{
}

/// A subscription is ready once a peer has confirmed it, and is not to be had once one has refused
/// it. A peer that is not there has not answered.
pub proof fn law_peer_that_is_away_has_not_answered(
    answer: Option<&Result<(), Error>>,
    r: Option<Result<(), Error>>,
)
    requires
        call_ensures(readiness, (answer,), r),
    ensures
        answer is None ==> r is None,
        answer matches Some(a) ==> {
            &&& *a is Ok ==> r == Some(Ok::<(), Error>(()))
            &&& *a == Err::<(), Error>(Error::PeerUnavailable) ==> r is None
            &&& *a matches Err(e) ==> !(e is PeerUnavailable) ==> r == Some(Err::<(), Error>(e))
        },
{
}

/// A receipt is settled once nothing in it is pending. Waiting for it ends then, or when the time
/// is up or the endpoint shuts down.
pub proof fn law_receipt_is_settled(r: Receipt, settled: bool, o: RecipientOutcome, terminal: bool)
    requires
        call_ensures(Receipt::settled, (&r,), settled),
        call_ensures(RecipientOutcome::terminal, (&o,), terminal),
    ensures
        settled <==> forall|i: int| 0 <= i < r.entries@.len() ==> !((#[trigger] r.entries@[i]).1 is Pending),
        terminal <==> !(o is Pending),
        settled ==> waited(r.entries@, Waiting::On) == Some(
            Ok::<Seq<(EndpointId, RecipientOutcome)>, Error>(r.entries@),
        ),
        !settled ==> waited(r.entries@, Waiting::On) is None,
        !settled ==> waited(r.entries@, Waiting::TimeUp) == Some(
            Err::<Seq<(EndpointId, RecipientOutcome)>, Error>(Error::Timeout),
        ),
        !settled ==> waited(r.entries@, Waiting::ShutDown) == Some(
            Err::<Seq<(EndpointId, RecipientOutcome)>, Error>(Error::ShuttingDown),
        ),
        settled ==> waited(r.entries@, Waiting::TimeUp) == waited(r.entries@, Waiting::On),
{
}

/// Shutting down is due at once, or when the time that it is given is over, if that can be told.
pub proof fn law_shutdown_is_due(mode: ShutdownMode, now: u128, r: Result<u128, Error>)
    requires
        call_ensures(ShutdownMode::deadline, (&mode, now), r),
        now <= 18446744073709551615999999999,
    ensures
        mode is Immediate ==> r == Ok::<u128, Error>(now),
        mode matches ShutdownMode::Drain { timeout } ==> {
            &&& now + timeout@ <= 18446744073709551615999999999 ==> r is Ok && r->Ok_0 == now
                + timeout@
            &&& now + timeout@ > 18446744073709551615999999999 ==> r == Err::<u128, Error>(
                Error::Config("shutdown timeout is too large"),
            )
        },
{
}

// Connections

/// What is spoken on a connection goes by its name.
pub proof fn law_protocols_go_by_name(name: &[u8], r: Result<(), Error>)
    requires
        call_ensures(check_protocol, (name,), r),
    ensures
        r is Ok <==> name@ == encode_utf8("iroh-mq/1"@),
        r matches Err(e) ==> e == Error::Protocol("ALPN"),
        protocol_text(Protocol::Messaging) == "iroh-mq/1"@,
        protocol_text(Protocol::Join) == "iroh-mq/join/2"@,
        protocol_text(Protocol::Enrollment) == "iroh-mq/enrollment/1"@,
        name@ == encode_utf8("iroh-mq/join/2"@) && name@ != encode_utf8("iroh-mq/1"@)
            ==> protocol_named(name@) is Join,
{
}

/// A greeting is taken from a peer whose certificate is verified, with limits that are sound.
pub proof fn law_greeting_is_checked(t: TrustView, b: Seq<u8>, peer: Seq<u8>, clock: Option<u64>)
    ensures
        greeting_of(t, b, peer, clock) matches Ok((hello, cert)) ==> {
            &&& cert.bytes == hello.cert
            &&& certificate_of(hello.cert) == Ok::<ClaimsView, Error>(
                cert.claims,
            )
            &&& clock matches Some(now) && trust_verify(t, cert, peer, now) is Ok
            &&& 1 <= hello.max_payload <= 1_048_576
            &&& 1 <= hello.max_topics <= 256
            &&& 1 <= hello.window_secs <= 300
        },
        clock is None ==> greeting_of(t, b, peer, clock) is Err,
        hello_of(b) matches Ok(hello) ==> (certificate_of(hello.cert) matches Ok(claims) ==> (
        clock matches Some(now) ==> {
            let cert = CertificateView { claims, bytes: hello.cert };
            let good = trust_verify(t, cert, peer, now);
            &&& good is Ok ==> greeting_of(t, b, peer, clock) == Ok::<
                (HelloView, CertificateView),
                Error,
            >((hello, cert))
            &&& good matches Err(e) ==> greeting_of(t, b, peer, clock) == Err::<
                (HelloView, CertificateView),
                Error,
            >(e)
        })),
{
}

/// A handshake goes on only with the frame that is next, and is closed by an answer that names both
/// nonces, the peer's first.
pub proof fn law_handshake_is_in_order(
    header: Header,
    expected: u8,
    k: Result<(), Error>,
    b: &[u8],
    nonce: Id,
    remote: Id,
    r: Result<(), Error>,
)
    requires
        call_ensures(check_kind, (&header, expected), k),
        call_ensures(check_ready, (b, nonce, remote), r),
    ensures
        k is Ok <==> header.kind == expected,
        k matches Err(e) ==> e == Error::Protocol("handshake frame order"),
        r is Ok <==> b@ == ready_bytes(remote@, nonce@),
        r matches Err(e) ==> e == Error::Protocol("READY binding"),
{
}

/// A session goes by whoever dialed it.
pub proof fn law_session_goes_by_its_dialer(
    own: (Seq<u8>, Seq<u8>),
    remote: (Seq<u8>, Seq<u8>),
)
    ensures
        dialed(true, own, remote) == own,
        dialed(false, own, remote) == remote,
        dialed(true, own, remote) == dialed(false, remote, own),
{
}

/// A peer may send 8192 control records in a second.
pub proof fn law_records_are_limited(l: &mut RateLimit, now: u128, r: Result<(), Error>)
    requires
        call_ensures(RateLimit::count, (l, now), r),
    ensures
        now >= old(l).start + 1_000_000_000 ==> final(l).count == 1 && final(l).start == now,
        now < old(l).start + 1_000_000_000 ==> final(l).start == old(l).start,
        now < old(l).start + 1_000_000_000 && old(l).count < usize::MAX ==> final(l).count == old(
            l,
        ).count + 1,
        r is Ok <==> final(l).count <= 8192,
        r matches Err(e) ==> e == Error::Protocol("control rate limit"),
{
}

/// A frame takes twice its metadata and a kilobyte while it is read.
pub proof fn law_frame_takes_its_time(header: Header, n: usize)
    requires
        call_ensures(frame_scratch, (&header,), n),
    ensures
        n == 2 * header.metadata + 1024,
{
}

/// A stream of messages carries data for one subscription to one topic, whatever comes first.
pub proof fn law_stream_carries_one_subscription(
    s: &mut DataStream,
    sub: Id,
    topic: Topic,
    r: Result<(), Error>,
    header: Header,
    k: Result<(), Error>,
)
    requires
        call_ensures(DataStream::bind, (s, sub, topic), r),
        call_ensures(DataStream::check_frame, (&header,), k),
    ensures
        r is Ok <==> binding_view(old(s).binding) is None || binding_view(old(s).binding) == Some(
            (sub@, topic@),
        ),
        r is Ok ==> binding_view(final(s).binding) == Some((sub@, topic@)),
        r is Err ==> binding_view(final(s).binding) == binding_view(old(s).binding),
        k is Ok <==> header.kind == 7,
{
}

/// A peer has no more streams open than there may be topics, and none of them has the number of
/// another.
pub proof fn law_streams_are_numbered(
    s: &mut Streams,
    max_topics: usize,
    r: Option<u64>,
    t: &mut Streams,
)
    requires
        call_ensures(Streams::open, (s, max_topics), r),
        call_ensures(Streams::close, (t,), ()),
    ensures
        r is Some <==> old(s).active < max_topics && old(s).generation < u64::MAX,
        r matches Some(n) ==> n == old(s).generation + 1 && final(s).generation == n
            && final(s).active == old(s).active + 1,
        r is None ==> *final(s) == *old(s),
        final(t).generation == old(t).generation,
        old(t).active > 0 ==> final(t).active == old(t).active - 1,
        old(t).active == 0 ==> final(t).active == 0,
{
}

/// A stream that its peer turned away has ended with the subscription; that ends the stream alone.
/// Any other failure is what it is.
pub proof fn law_stream_that_is_turned_away(
    result: Result<(), Error>,
    turned_away: bool,
    r: Result<(), Error>,
    e: Error,
    only: bool,
)
    requires
        call_ensures(write_outcome, (result, turned_away), r),
        call_ensures(stream_only, (&e,), only),
    ensures
        result is Ok ==> r is Ok,
        result is Err && turned_away ==> r == Err::<(), Error>(Error::SubscriptionClosed),
        result is Err && !turned_away ==> r == result,
        only <==> e is SubscriptionClosed,
{
}

/// A code is used with the host that it names, and with a short request; so is an invitation.
pub proof fn law_requests_are_short(
    code: JoinCode,
    remote: EndpointId,
    m: Result<(), Error>,
    header: Header,
    j: Result<(), Error>,
    i: Result<(), Error>,
)
    requires
        call_ensures(may_redeem, (&code, remote), m),
        call_ensures(accepts_request, (&header,), j),
        call_ensures(accepts_redeem, (&header,), i),
    ensures
        m is Ok <==> code@.address.id == remote@,
        m matches Err(e) ==> e == Error::Unauthorized,
        j is Ok <==> header.kind == 1 && header.metadata <= 128,
        j matches Err(e) ==> e == Error::Protocol("join request"),
        i is Ok <==> header.kind == 1 && header.metadata <= 128,
        i matches Err(e) ==> e == Error::Protocol("enrollment request"),
{
}

/// An authority lets in four connections for each peer that there may be, and invitations that are
/// asked for have no more than 256 permissions.
pub proof fn law_authority_lets_in_so_many(
    a: &mut Attempts,
    max_peers: usize,
    accepted: bool,
    t: InvitationTerms,
    r: Result<(), Error>,
)
    requires
        call_ensures(Attempts::accept, (a, max_peers), accepted),
        call_ensures(InvitationTerms::check, (&t,), r),
    ensures
        old(a).count < usize::MAX ==> final(a).count == old(a).count + 1,
        accepted <==> final(a).count <= 4 * max_peers,
        r is Ok <==> t@.permissions.len() <= 256,
        r matches Err(e) ==> e == Error::MessageTooLarge,
{
}

/// Where there are relays, an address is made of them alone; else it is as it was.
pub proof fn law_address_is_made_compact(a: AddressView)
    ensures
        compact(a).id == a.id,
        compact(a).relays == a.relays,
        a.relays.len() > 0 && a.relays.finite() ==> compact(a).ips == Set::<
            SocketView,
        >::empty(),
        a.relays == Set::<Seq<char>>::empty() ==> compact(a).ips == a.ips,
{
}

// Files

/// Only its owner may use what holds a secret: none of the bits for others is set.
pub proof fn law_secrets_are_private(
    f: FileFacts,
    key: Result<(), Error>,
    directory: Result<(), Error>,
    state: Result<(), Error>,
    state_directory: Result<(), Error>,
    bytes: &[u8],
    size: Result<(), Error>,
)
    requires
        call_ensures(FileFacts::validate_key, (&f,), key),
        call_ensures(FileFacts::validate_key_directory, (&f,), directory),
        call_ensures(FileFacts::validate_state, (&f,), state),
        call_ensures(FileFacts::validate_state_directory, (&f,), state_directory),
        call_ensures(check_state_size, (bytes,), size),
    ensures
        key is Ok <==> f.file && !f.symlink && f.links == 1 && f.mode & 63 == 0,
        directory is Ok <==> f.directory && !f.symlink && f.mode & 63 == 0,
        state is Ok <==> f.file && !f.symlink && f.links == 1 && f.mode & 63 == 0,
        state_directory is Ok <==> f.directory && !f.symlink && f.mode & 63 == 0,
        size is Ok <==> bytes@.len() <= 4_194_304,
        size matches Err(e) ==> e == Error::MessageTooLarge,
{
}

/// A key is read from a private file of exactly 32 bytes, and is those bytes.
pub proof fn law_key_is_in_its_file(f: FileFacts, contents: &[u8], r: Result<Identity, Error>)
    requires
        call_ensures(Identity::load, (&f, contents), r),
    ensures
        r is Ok <==> f.file && !f.symlink && f.links == 1 && f.mode & 63 == 0 && contents@.len()
            == 32,
        r matches Ok(identity) ==> identity@ == contents@,
{
}

// Memory

/// So much is set aside as was asked for, if so much is left, under a ticket that nothing else has,
/// for one holder. Otherwise nothing changes.
pub proof fn law_memory_is_set_aside(b: &mut Budget, n: usize, r: Result<Permit, Error>)
    requires
        call_ensures(Budget::reserve, (b, n), r),
    ensures
        r is Ok <==> old(b)@.used + n <= old(b)@.limit,
        r matches Err(e) ==> e == Error::QueueFull && final(b)@ == old(b)@,
        r matches Ok(p) ==> {
            &&& p@.budget == old(b)@.id
            &&& !old(b)@.reservations.contains_key(p@.ticket)
            &&& final(b)@.used == old(b)@.used + n
            &&& final(b)@.peak >= final(b)@.used && final(b)@.peak >= old(b)@.peak
            &&& final(b)@.peak == old(b)@.peak || final(b)@.peak == final(b)@.used
            &&& final(b)@.reservations == old(b)@.reservations.insert(p@.ticket, (n, 1))
            &&& final(b)@.limit == old(b)@.limit && final(b)@.id == old(b)@.id
        },
{
    if let Ok(p) = r {
        assert(p@.budget == old(b)@.id);
    }
}

/// What was set aside is given back when its last holder lets go of it, and then all of it at once.
/// What is of another budget is nothing to this one.
pub proof fn law_memory_is_given_back(b: BudgetView, p: PermitView)
    requires
        b.reservations.contains_key(p.ticket) ==> b.reservations[p.ticket].0 <= b.used
            && b.reservations[p.ticket].1 >= 1,
    ensures
        ({
            let w = after_release(b, p);
            let held = p.budget == b.id && b.reservations.contains_key(p.ticket);
            let (amount, holders) = b.reservations[p.ticket];
            &&& !held ==> w == b
            &&& held && holders == 1 ==> w.used == b.used - amount && w.reservations
                == b.reservations.remove(p.ticket)
            &&& held && holders > 1 ==> w.used == b.used && w.reservations == b.reservations.insert(
                p.ticket,
                (amount, (holders - 1) as usize),
            )
            &&& w.peak == b.peak && w.limit == b.limit && w.id == b.id
        }),
{
}

/// What is set aside and given back at once leaves everything as it was but the mark of how much
/// was in use at most.
pub proof fn law_setting_aside_is_undone(b: BudgetView, n: usize, t: u64)
    requires
        b.used + n <= usize::MAX,
        is_free_ticket(b.reservations, t),
    ensures
        ({
            let p = PermitView { budget: b.id, ticket: free_ticket(b.reservations) };
            let w = after_release(after_reserve(b, n), p);
            &&& w.used == b.used
            &&& w.reservations == b.reservations
            &&& w.limit == b.limit && w.id == b.id
        }),
{
    let f = free_ticket(b.reservations);
    assert(is_free_ticket(b.reservations, f));
    let p = PermitView { budget: b.id, ticket: f };
    assert(after_release(after_reserve(b, n), p).reservations =~= b.reservations);
}

/// What is shared has one holder more, and what is made smaller gives the rest back.
pub proof fn law_memory_is_shared_and_shrunk(b: BudgetView, p: PermitView, n: usize)
    requires
        p.budget == b.id,
        b.reservations.contains_key(p.ticket),
        1 <= b.reservations[p.ticket].1 < usize::MAX,
        n <= b.reservations[p.ticket].0 <= b.used,
    ensures
        after_share(b, p).used == b.used,
        after_share(b, p).reservations == b.reservations.insert(
            p.ticket,
            (b.reservations[p.ticket].0, (b.reservations[p.ticket].1 + 1) as usize),
        ),
        after_shrink(b, p, n).used == b.used - (b.reservations[p.ticket].0 - n),
        after_shrink(b, p, n).reservations == b.reservations.insert(
            p.ticket,
            (n, b.reservations[p.ticket].1),
        ),
        after_release(after_share(b, p), p).reservations == b.reservations,
        after_release(after_share(b, p), p).used == b.used,
{
    assert(after_release(after_share(b, p), p).reservations =~= b.reservations);
}

/// A payload is kept if it is not too long and there is room for it and 256 bytes more, and is kept
/// as it is.
pub proof fn law_payload_is_kept_as_it_is(
    p: &mut BufferPool,
    bytes: &[u8],
    r: Result<PayloadLease, Error>,
)
    requires
        call_ensures(BufferPool::copy_from_slice, (p, bytes), r),
    ensures
        bytes@.len() > old(p)@.max_payload ==> r is Err && r->Err_0 == Error::MessageTooLarge,
        bytes@.len() <= old(p)@.max_payload ==> (r is Ok <==> old(p)@.budget.used + bytes@.len() + 256
            <= old(p)@.budget.limit),
        bytes@.len() <= old(p)@.max_payload ==> (r matches Err(e) ==> e == Error::QueueFull),
        r is Err ==> final(p)@ == old(p)@,
        r matches Ok(l) ==> {
            &&& l@.bytes == bytes@
            &&& l@.permits.len() == 1
            &&& final(p)@.budget.used == old(p)@.budget.used + bytes@.len() + 256
            &&& final(p)@.max_payload == old(p)@.max_payload
        },
{
}

/// Room for a message takes all of its parts or none: the record of the message, one place and the
/// bytes of the frame from what the subscription may have out, the way to the handler, and the
/// payload.
pub proof fn law_room_takes_all_its_parts(s: SourcesView, c: CreditCharge)
    requires
        s.metadata.used + c.metadata + c.transit <= usize::MAX,
        s.metadata.limit <= usize::MAX,
    ensures
        can_set_aside(s, c) <==> {
            &&& s.metadata.used + c.metadata + c.transit <= s.metadata.limit
            &&& s.slots.used + 1 <= s.slots.limit
            &&& s.bytes.used + c.bytes <= s.bytes.limit
            &&& s.pool.budget.used + c.payload <= s.pool.budget.limit
        },
        can_set_aside(s, c) ==> {
            let t = after_set_aside(s, c);
            &&& t.metadata.used == s.metadata.used + c.metadata + c.transit
            &&& t.slots.used == s.slots.used + 1
            &&& t.bytes.used == s.bytes.used + c.bytes
            &&& t.pool.budget.used == s.pool.budget.used + c.payload
            &&& t.pool.max_payload == s.pool.max_payload
        },
        !can_set_aside(s, c) ==> {
            let t = after_set_aside(s, c);
            &&& t.metadata.used == s.metadata.used
            &&& t.slots.used == s.slots.used
            &&& t.bytes.used == s.bytes.used
            &&& t.pool.budget.used == s.pool.budget.used
            &&& t.metadata.reservations == s.metadata.reservations
            &&& t.slots.reservations == s.slots.reservations
            &&& t.bytes.reservations == s.bytes.reservations
            &&& t.pool.budget.reservations == s.pool.budget.reservations
        },
{
}

/// There is room only for topics that are subscribed to, and only while it lasts.
pub proof fn law_room_is_for_what_is_subscribed(f: FundsView, topic: Seq<char>, c: CreditCharge)
    ensures
        !f.allowances.contains_key(topic) <==> funding_refusal(f, topic, c) == Some(
            Error::SubscriptionClosed,
        ),
        f.allowances.contains_key(topic) && funding_refusal(f, topic, c) is Some ==> funding_refusal(
            f,
            topic,
            c,
        ) == Some(Error::QueueFull),
{
}

/// What a subscription has out is told as it is, and what comes back is taken off the side it was
/// set aside from.
pub proof fn law_allowance_is_taken_back(
    a: &Allowances,
    topic: &Topic,
    r: Option<(usize, usize)>,
    v: AllowanceView,
    p: PermitView,
)
    requires
        call_ensures(Allowances::out, (a, topic), r),
    ensures
        r is Some <==> a@.contains_key(topic@),
        r matches Some((messages, bytes)) ==> messages == a@[topic@].slots.used && bytes
            == a@[topic@].bytes.used,
        p.budget == v.slots.id && v.slots.reservations.contains_key(p.ticket) ==> after_return(v, p)
            == (AllowanceView { slots: after_release(v.slots, p), ..v }),
        p.budget != v.slots.id ==> after_return(v, p) == (AllowanceView {
            bytes: after_release(v.bytes, p),
            ..v
        }),
{
}

// Queues

/// A queue gives out what is in it; once it is empty and its other end is gone, it is closed.
pub proof fn law_queue_gives_out_what_is_there<T>(
    first: Option<T>,
    closed: bool,
    last: Option<T>,
    r: Polled<T>,
    full: bool,
    room: bool,
    item: T,
    sent: Result<T, T>,
)
    requires
        call_ensures(settle_poll::<T>, (first, closed, last), r),
        call_ensures(settle_room, (closed, full), room),
        call_ensures(settle_send::<T>, (closed, item), sent),
    ensures
        first matches Some(x) ==> r == Polled::<T>::Item(x),
        first is None && !closed ==> r is Empty,
        first is None && closed ==> (last matches Some(x) ==> r == Polled::<T>::Item(x)),
        first is None && closed && last is None ==> r is Closed,
        room <==> !closed && !full,
        closed ==> sent == Err::<T, T>(item),
        !closed ==> sent == Ok::<T, T>(item),
{
}

// Frames

/// A frame is taken if it is of one of the twelve kinds, its metadata are no longer than 16
/// kilobytes, its payload is no longer than allowed, and it has none unless it carries a message.
pub proof fn law_frame_is_taken(b: [u8; 12], max_payload: usize, r: Result<Header, Error>)
    requires
        call_ensures(Header::decode, (b, max_payload), r),
    ensures
        ({
            let body = be_value(b@.subrange(0, 4));
            let metadata = be_value(b@.subrange(8, 12));
            let formed = b@[5] == 0 && b@[6] == 0 && b@[7] == 0 && 1 <= b@[4] <= 12 && metadata
                <= body;
            let fits = metadata <= 16384 && body - metadata <= max_payload;
            &&& !formed ==> r == Err::<Header, Error>(Error::Protocol("frame prefix"))
            &&& formed && !fits ==> r == Err::<Header, Error>(Error::MessageTooLarge)
            &&& formed && fits && b@[4] != 7 && body != metadata ==> r == Err::<Header, Error>(
                Error::Protocol("control payload"),
            )
            &&& formed && fits && (b@[4] == 7 || body == metadata) ==> r is Ok && r->Ok_0.kind
                == b@[4] && r->Ok_0.metadata == metadata && r->Ok_0.payload == body - metadata
        }),
{
}

/// A record is taken only in its own session, and so is a message.
pub proof fn law_records_keep_to_their_session(
    kind: u8,
    b: Seq<u8>,
    session: Seq<u8>,
    other: Seq<u8>,
)
    requires
        session != other,
    ensures
        control_of(kind, b, session) is Ok ==> control_of(kind, b, other) is Err,
        data_of(b, session) is Ok ==> data_of(b, other) is Err,
{
}

// Times

/// Spans of time are counted in nanoseconds.
pub proof fn law_spans_of_time(
    secs: u64,
    a: Duration,
    millis: u64,
    b: Duration,
    d: Duration,
    whole: u64,
    rest: u32,
    all: u128,
    other: Duration,
    longer: bool,
    sum: Duration,
)
    requires
        call_ensures(Duration::from_secs, (secs,), a),
        call_ensures(Duration::from_millis, (millis,), b),
        call_ensures(Duration::as_secs, (&d,), whole),
        call_ensures(Duration::subsec_nanos, (&d,), rest),
        call_ensures(Duration::as_nanos, (&d,), all),
        call_ensures(Duration::exceeds, (&d, &other), longer),
        call_ensures(Duration::saturating_add, (&d, &other), sum),
    ensures
        a@ == secs * 1_000_000_000,
        b@ == millis * 1_000_000,
        d@ == whole * 1_000_000_000 + rest,
        rest < 1_000_000_000,
        all == d@,
        longer <==> d@ > other@,
        d@ + other@ <= 18446744073709551615999999999 ==> sum@ == d@ + other@,
        d@ + other@ > 18446744073709551615999999999 ==> sum@ == 18446744073709551615999999999,
{
}

// Errors

/// What a person is told of an error.
pub proof fn law_errors_are_put_in_words(e: Error, text: String)
    requires
        call_ensures(Error::message, (&e,), text),
    ensures
        e is Unauthorized ==> text@ == "unauthorized"@,
        e is CertificateExpired ==> text@ == "certificate expired or not yet valid"@,
        e is InvalidSignature ==> text@ == "invalid signature"@,
        e is InvalidTopic ==> text@ == "invalid topic"@,
        e is NoSubscribers ==> text@ == "no eligible subscribers"@,
        e is AlreadySubscribed ==> text@ == "already subscribed"@,
        e is QueueFull ==> text@ == "queue or memory budget exhausted"@,
        e is MessageTooLarge ==> text@ == "message too large"@,
        e is PeerUnavailable ==> text@ == "peer unavailable"@,
        e is DeliveryExpired ==> text@ == "delivery expired; remote processing may have occurred"@,
        e is Timeout ==> text@ == "operation timed out"@,
        e matches Error::Protocol(what) ==> text@ == "protocol violation: "@ + what@,
        e is ShuttingDown ==> text@ == "shutting down"@,
        e is SubscriptionClosed ==> text@ == "subscription closed"@,
        e matches Error::Config(what) ==> text@ == "invalid configuration: "@ + what@,
        e is Clock ==> text@ == "clock anomaly"@,
        e matches Error::Io(what) ==> text@ == "I/O: "@ + what@,
{
}

// Payloads

/// What a payload holds is given back when the payload is let go of, one permit after the other.
pub proof fn law_permits_are_given_back_in_turn(b: BudgetView, s: Seq<PermitView>, p: PermitView)
    ensures
        after_releases(b, Seq::empty()) == b,
        after_releases(b, s.push(p)) == after_release(after_releases(b, s), p),
{
    assert(s.push(p).drop_last() =~= s);
}

/// A payload that is let go of gives back what it holds of the pool, and one that is shared holds
/// the same as the other.
pub proof fn law_payload_is_shared_and_let_go(
    p: &mut BufferPool,
    payload: PayloadLease,
    q: &mut BufferPool,
    r: Option<PayloadLease>,
    a: &BufferPool,
    own: bool,
)
    requires
        call_ensures(BufferPool::release, (p, payload), ()),
        call_ensures(BufferPool::share, (q, &payload), r),
        call_ensures(BufferPool::owns, (a, &payload), own),
    ensures
        final(p)@ == (PoolView {
            budget: after_releases(old(p)@.budget, payload@.permits),
            ..old(p)@
        }),
        r matches Some(l) ==> l@ == payload@ && payload@.permits.len() == 1 && final(q)@
            == (PoolView { budget: after_share(old(q)@.budget, payload@.permits[0]), ..old(q)@ }),
        r is None ==> final(q)@ == old(q)@,
        own ==> exists|i: int|
            0 <= i < payload@.permits.len() && (#[trigger] payload@.permits[i]).budget
                == a@.budget.id,
{
    if own {
        let i = choose|i: int|
            0 <= i < payload@.permits.len() && (#[trigger] payload@.permits[i]).budget
                == a@.budget.id;
        assert(payload@.permits[i].budget == a@.budget.id);
    }
}

/// A payload that is taken over is kept as it is, and holds as much of the pool as it takes and 256
/// bytes more.
pub proof fn law_payload_is_taken_over(
    p: &mut BufferPool,
    bytes: Vec<u8>,
    size: usize,
    r: Result<PayloadLease, Error>,
)
    requires
        call_ensures(BufferPool::take_over, (p, bytes, size), r),
    ensures
        bytes@.len() > old(p)@.max_payload ==> r is Err && r->Err_0 == Error::MessageTooLarge,
        bytes@.len() <= old(p)@.max_payload ==> (r is Ok <==> old(p)@.budget.used + size + 256
            <= old(p)@.budget.limit),
        r is Err ==> final(p)@ == old(p)@,
        r matches Ok(l) ==> l@.bytes == bytes@ && l@.permits.len() == 1
            && final(p)@.budget.used == old(p)@.budget.used + size + 256,
{
}

/// A budget tells what it is: its limit, what is in use, what was in use at most, and what a permit
/// holds.
pub proof fn law_budget_is_told(
    limit: usize,
    n: Budget,
    b: &Budget,
    used: usize,
    peak: usize,
    p: &Permit,
    amount: Option<usize>,
    w: &mut Budget,
    q: Permit,
)
    requires
        call_ensures(Budget::new, (limit,), n),
        call_ensures(Budget::used, (b,), used),
        call_ensures(Budget::peak, (b,), peak),
        call_ensures(Budget::amount, (b, p), amount),
        call_ensures(Budget::release, (w, q), ()),
    ensures
        n@.limit == limit && n@.used == 0 && n@.peak == 0,
        n@.reservations.dom() == Set::<u64>::empty(),
        used == b@.used,
        peak == b@.peak,
        amount is Some <==> p@.budget == b@.id && b@.reservations.contains_key(p@.ticket),
        amount matches Some(held) ==> held == b@.reservations[p@.ticket].0,
        final(w)@ == after_release(old(w)@, q@),
{
}

// Addresses

/// An address has the ways that were added to it.
pub proof fn law_address_has_its_ways(
    id: EndpointId,
    n: EndpointAddr,
    a: EndpointAddr,
    ip: SocketAddress,
    b: EndpointAddr,
    relay: RelayUrl,
    c: EndpointAddr,
    named: EndpointId,
)
    requires
        call_ensures(EndpointAddr::new, (id,), n),
        call_ensures(EndpointAddr::with_ip_addr, (a, ip), b),
        call_ensures(EndpointAddr::with_relay_url, (a, relay), c),
        call_ensures(EndpointAddr::id, (&a,), named),
    ensures
        n@.id == id@,
        n@.ips == Set::<SocketView>::empty(),
        n@.relays == Set::<Seq<char>>::empty(),
        b@.id == a@.id && b@.ips == a@.ips.insert(ip@) && b@.relays == a@.relays,
        c@.id == a@.id && c@.ips == a@.ips && c@.relays == a@.relays.insert(relay@),
        named@ == a@.id,
{
}

} // verus!
