//! How a session comes about, and what may be read from it.
use crate::auth::{certificate_of, trust_verify, Certificate, CertificateView, Trust, TrustView};
use crate::crypto::{EndpointId, Id};
use crate::error::Error;
use crate::message::Topic;
use crate::octets::same_bytes;
use crate::wire::{
    hello_of, parse_hello, ready, ready_bytes, Header, Hello, HelloView, DATA, MAX_METADATA,
};
use vstd::prelude::*;
use vstd::utf8::encode_utf8;

verus! {

// Protocols

/// What two endpoints have agreed to talk about.
#[derive(Clone, Copy, Debug, PartialEq, Eq, Structural)]
pub enum Protocol {
    Messaging,
    Join,
    Enrollment,
    Other,
}

/// The name of a protocol.
pub open spec fn protocol_text(p: Protocol) -> Seq<char> {
    match p {
        Protocol::Messaging => "iroh-mq/1"@,
        Protocol::Join => "iroh-mq/join/2"@,
        Protocol::Enrollment => "iroh-mq/enrollment/1"@,
        Protocol::Other => Seq::empty(),
    }
}

/// The protocol with a name.
pub open spec fn protocol_named(name: Seq<u8>) -> Protocol {
    if name == encode_utf8("iroh-mq/1"@) {
        Protocol::Messaging
    } else if name == encode_utf8("iroh-mq/join/2"@) {
        Protocol::Join
    } else if name == encode_utf8("iroh-mq/enrollment/1"@) {
        Protocol::Enrollment
    } else {
        Protocol::Other
    }
}

impl Protocol {
    /// The name of this protocol.
    pub fn name(&self) -> (s: &'static str)
        ensures
            s@ == protocol_text(*self),
    {
        match self {
            Protocol::Messaging => "iroh-mq/1",
            Protocol::Join => "iroh-mq/join/2",
            Protocol::Enrollment => "iroh-mq/enrollment/1",
            Protocol::Other => {
                proof {
                    reveal_strlit("");
                }
                ""
            },
        }
    }

    /// The protocol with a name.
    pub fn of(name: &[u8]) -> (p: Protocol)
        ensures
            p == protocol_named(name@),
    {
        if same_bytes(name, "iroh-mq/1".as_bytes()) {
            Protocol::Messaging
        } else if same_bytes(name, "iroh-mq/join/2".as_bytes()) {
            Protocol::Join
        } else if same_bytes(name, "iroh-mq/enrollment/1".as_bytes()) {
            Protocol::Enrollment
        } else {
            Protocol::Other
        }
    }
}

// The handshake

/// Whether a connection is one for messages.
pub fn check_protocol(name: &[u8]) -> (r: Result<(), Error>)
    ensures
        r == if protocol_named(name@) == Protocol::Messaging {
            Ok::<(), Error>(())
        } else {
            Err(Error::Protocol("ALPN"))
        },
{
    match Protocol::of(name) {
        Protocol::Messaging => Ok(()),
        _ => Err(Error::Protocol("ALPN")),
    }
}

/// Whether a frame is the one that is due.
pub fn check_kind(header: &Header, expected: u8) -> (r: Result<(), Error>)
    ensures
        r == if header.kind == expected {
            Ok::<(), Error>(())
        } else {
            Err(Error::Protocol("handshake frame order"))
        },
{
    if header.kind == expected {
        Ok(())
    } else {
        Err(Error::Protocol("handshake frame order"))
    }
}

/// What a peer said of itself, once it is believed.
pub struct Greeting {
    pub hello: Hello,
    pub cert: Certificate,
}

impl View for Greeting {
    type V = (HelloView, CertificateView);

    open spec fn view(&self) -> (HelloView, CertificateView) {
        (self.hello@, self.cert@)
    }
}

/// What a peer says of itself, if it is to be believed.
pub open spec fn greeting_of(t: TrustView, b: Seq<u8>, peer: Seq<u8>, clock: Option<u64>) -> Result<
    (HelloView, CertificateView),
    Error,
> {
    match hello_of(b) { Err(e) => Err(e), Ok(hello) =>
    match certificate_of(hello.cert) { Err(e) => Err(e), Ok(claims) => {
        let cert = CertificateView { claims, bytes: hello.cert };
        match clock { None => Err(Error::Clock), Some(now) =>
        match trust_verify(t, cert, peer, now) {
            Err(e) => Err(e),
            Ok(_) => Ok((hello, cert)),
        } }
    } } }
}

/// Believes what the authenticated peer says of itself, or says why not.
pub fn review_hello(trust: &Trust, b: &[u8], peer: EndpointId, clock: Option<u64>) -> (r: Result<
    Greeting,
    Error,
>)
    ensures
        match greeting_of(trust@, b@, peer@, clock) {
            Ok(g) => r is Ok && r->Ok_0@ == g,
            Err(e) => r is Err && r->Err_0 == e,
        },
{
    let hello = parse_hello(b)?;
    let cert = Certificate::from_bytes(hello.cert.as_slice())?;
    match clock {
        None => Err(Error::Clock),
        Some(now) => {
            trust.verify(&cert, peer, now)?;
            Ok(Greeting { hello, cert })
        },
    }
}

/// Whether the peer confirms this very session.
pub fn check_ready(b: &[u8], nonce: Id, remote: Id) -> (r: Result<(), Error>)
    ensures
        r == if b@ == ready_bytes(remote@, nonce@) {
            Ok::<(), Error>(())
        } else {
            Err(Error::Protocol("READY binding"))
        },
{
    if same_bytes(b, ready(remote, nonce).as_slice()) {
        Ok(())
    } else {
        Err(Error::Protocol("READY binding"))
    }
}

/// What tells one session between two endpoints from another: who dialed, and the dialer's nonce.
pub open spec fn dialed(
    dialing: bool,
    own: (Seq<u8>, Seq<u8>),
    remote: (Seq<u8>, Seq<u8>),
) -> (Seq<u8>, Seq<u8>) {
    if dialing {
        own
    } else {
        remote
    }
}

/// What tells one session between two endpoints from another.
pub fn session_dialer(
    dialing: bool,
    own: EndpointId,
    nonce: Id,
    peer: EndpointId,
    remote: Id,
) -> (r: (EndpointId, Id))
    ensures
        (r.0@, r.1@) == dialed(dialing, (own@, nonce@), (peer@, remote@)),
{
    if dialing {
        (own, nonce)
    } else {
        (peer, remote)
    }
}

/// The two ends of a session agree on what tells it from another.
pub proof fn law_both_ends_agree(a: (Seq<u8>, Seq<u8>), b: (Seq<u8>, Seq<u8>), a_dials: bool)
    ensures
        dialed(a_dials, a, b) == dialed(!a_dials, b, a),
{
}

/// Nobody is believed who is not the subject of the certificate that it shows.
pub proof fn law_stolen_certificate_is_refused(
    t: TrustView,
    b: Seq<u8>,
    peer: Seq<u8>,
    clock: Option<u64>,
)
    ensures
        greeting_of(t, b, peer, clock) matches Ok((hello, cert)) ==> cert.claims.subject == peer
            && cert.claims.realm == t.realm && cert.claims.issuer == t.root
            && !t.revoked.contains(cert.claims.id),
{
}

// What may be read

/// How many control records a peer may send in a second.
pub const MAX_CONTROL_RATE: usize = 8192;

/// How many control records have come in during the present second.
#[derive(Clone, Copy, Debug)]
pub struct RateLimit {
    pub count: usize,
    pub start: u128,
}

/// The count with one more record at `now`.
pub open spec fn record_counted(l: RateLimit, now: u128) -> RateLimit {
    if now >= l.start + 1_000_000_000 {
        RateLimit { count: 1, start: now }
    } else {
        RateLimit {
            count: if l.count == usize::MAX {
                usize::MAX
            } else {
                (l.count + 1) as usize
            },
            start: l.start,
        }
    }
}

impl RateLimit {
    pub fn new(now: u128) -> (l: RateLimit)
        ensures
            l == (RateLimit { count: 0, start: now }),
    {
        RateLimit { count: 0, start: now }
    }

    /// Counts a control record, and says whether there are too many.
    pub fn count(&mut self, now: u128) -> (r: Result<(), Error>)
        ensures
            *final(self) == record_counted(*old(self), now),
            r == if final(self).count > MAX_CONTROL_RATE {
                Err::<(), Error>(Error::Protocol("control rate limit"))
            } else {
                Ok(())
            },
    {
        if now >= self.start && now - self.start >= 1_000_000_000 {
            self.start = now;
            self.count = 0;
        }
        self.count = if self.count == usize::MAX {
            usize::MAX
        } else {
            self.count + 1
        };
        if self.count > MAX_CONTROL_RATE {
            Err(Error::Protocol("control rate limit"))
        } else {
            Ok(())
        }
    }
}

/// What reading a frame takes of the memory for metadata.
pub fn frame_scratch(header: &Header) -> (n: usize)
    requires
        header.metadata <= MAX_METADATA,
    ensures
        n == header.metadata * 2 + 1024,
{
    header.metadata * 2 + 1024
}

/// What a stream of messages carries, once it has carried one.
pub struct DataStream {
    pub binding: Option<(Id, Topic)>,
}

/// What a stream carries, as a value.
pub open spec fn binding_view(b: Option<(Id, Topic)>) -> Option<(Seq<u8>, Seq<char>)> {
    match b {
        Some((sub, topic)) => Some((sub@, topic@)),
        None => None,
    }
}

impl DataStream {
    pub fn new() -> (s: DataStream)
        ensures
            s.binding is None,
    {
        DataStream { binding: None }
    }

    /// Whether a frame may stand on a stream of messages.
    pub fn check_frame(header: &Header) -> (r: Result<(), Error>)
        ensures
            r == if header.kind == DATA {
                Ok::<(), Error>(())
            } else {
                Err(Error::Protocol("non-DATA on data stream"))
            },
    {
        if header.kind == DATA {
            Ok(())
        } else {
            Err(Error::Protocol("non-DATA on data stream"))
        }
    }

    /// Notes which subscription a message on this stream is for. All must be for the same.
    pub fn bind(&mut self, sub: Id, topic: Topic) -> (r: Result<(), Error>)
        ensures
            ({
                let before = binding_view(old(self).binding);
                let after = binding_view(final(self).binding);
                if before is None || before == Some((sub@, topic@)) {
                    r is Ok && after == Some((sub@, topic@))
                } else {
                    r == Err::<(), Error>(Error::Protocol("data stream binding changed")) && after
                        == before
                }
            }),
    {
        let changed = match &self.binding {
            Some((known, name)) => !same_bytes(known, &sub) || !name.same(&topic),
            None => false,
        };
        if changed {
            return Err(Error::Protocol("data stream binding changed"));
        }
        self.binding = Some((sub, topic));
        Ok(())
    }
}

/// Whether a stream is to be turned away quietly rather than the session ended, when a frame on it
/// is refused: its subscription is no longer there.
pub fn stream_only(e: &Error) -> (r: bool)
    ensures
        r == (*e is SubscriptionClosed),
{
    match e {
        Error::SubscriptionClosed => true,
        _ => false,
    }
}

/// What came of writing a frame, where `turned_away` says whether the peer has turned the stream
/// away because the subscription is no longer there.
pub fn write_outcome(result: Result<(), Error>, turned_away: bool) -> (r: Result<(), Error>)
    ensures
        r == match result {
            Ok(_) => Ok::<(), Error>(()),
            Err(e) => if turned_away {
                Err(Error::SubscriptionClosed)
            } else {
                Err(e)
            },
        },
{
    match result {
        Ok(()) => Ok(()),
        Err(e) => {
            if turned_away {
                Err(Error::SubscriptionClosed)
            } else {
                Err(e)
            }
        },
    }
}

/// The streams of messages that a peer has open.
#[derive(Clone, Copy, Debug)]
pub struct Streams {
    pub active: usize,
    pub generation: u64,
}

impl Streams {
    pub fn new() -> (s: Streams)
        ensures
            s == (Streams { active: 0, generation: 0 }),
    {
        Streams { active: 0, generation: 0 }
    }

    /// Numbers a stream that the peer opens, unless it has as many as there may be.
    pub fn open(&mut self, max_topics: usize) -> (r: Option<u64>)
        ensures
            if old(self).active >= max_topics || old(self).generation == u64::MAX {
                r is None && *final(self) == *old(self)
            } else {
                r == Some((old(self).generation + 1) as u64) && *final(self) == (Streams {
                    active: (old(self).active + 1) as usize,
                    generation: (old(self).generation + 1) as u64,
                })
            },
    {
        if self.active >= max_topics || self.generation == u64::MAX {
            return None;
        }
        self.active = self.active + 1;
        self.generation = self.generation + 1;
        Some(self.generation)
    }

    /// Notes that a stream is over.
    pub fn close(&mut self)
        ensures
            *final(self) == (Streams {
                active: if old(self).active == 0 {
                    0
                } else {
                    (old(self).active - 1) as usize
                },
                ..*old(self)
            }),
    {
        if self.active > 0 {
            self.active = self.active - 1;
        }
    }
}

} // verus!
