//! Frames and the records that they carry between two connected endpoints.
use crate::auth::MAX_CERT;
use crate::cbor::{
    array_head, bytes_item, canonical, canonical_check, group_read_back, lemma_nothing_after,
    take_array, take_bytes, take_end, take_fixed, take_u, text_item, uint_item, Reader, Writer,
};
use crate::crypto::Id;
use crate::error::Error;
use crate::message::{mode_number, valid_topic, DeliveryMode, Topic};
use crate::octets::{
    be_bytes, be_value, lemma_be_bytes_len, lemma_be_limits, lemma_be_round_trip,
    lemma_be_value_round_trip, push_be, read_be, same_bytes, to_array,
};
use crate::record::{
    group_fields_back, read_mode, read_size, read_topic, read_version, take_mode, take_size,
    take_topic, take_version,
};
use vstd::prelude::*;
use vstd::slice::slice_to_vec;

verus! {

/// The longest metadata section of a frame, in bytes.
pub const MAX_METADATA: usize = 16384;

/// The frame that opens a session.
pub const HELLO: u8 = 1;

/// The frame that confirms an opened session.
pub const READY: u8 = 2;

/// The frame that carries a message.
pub const DATA: u8 = 7;

// The prefix of a frame

/// The prefix of a frame: the length of its body, its kind, and the length of the part of the body
/// that is metadata.
#[derive(Debug, Clone, Copy, PartialEq, Eq, Structural)]
pub struct Header {
    pub kind: u8,
    pub metadata: usize,
    pub payload: usize,
}

/// The twelve bytes in front of a frame.
pub open spec fn header_bytes(h: Header) -> Seq<u8> {
    be_bytes((h.metadata + h.payload) as nat, 4) + seq![h.kind, 0u8, 0u8, 0u8] + be_bytes(
        h.metadata as nat,
        4,
    )
}

/// The prefix that twelve bytes stand for, where payloads have at most `max_payload` bytes.
pub open spec fn header_of(b: Seq<u8>, max_payload: nat) -> Result<Header, Error> {
    let body = be_value(b.subrange(0, 4));
    let metadata = be_value(b.subrange(8, 12));
    let payload = body - metadata;
    if b[5] != 0 || b[6] != 0 || b[7] != 0 || !(1 <= b[4] <= 12) || metadata > body {
        Err(Error::Protocol("frame prefix"))
    } else if metadata > MAX_METADATA || payload > max_payload {
        Err(Error::MessageTooLarge)
    } else if b[4] != DATA && payload != 0 {
        Err(Error::Protocol("control payload"))
    } else {
        Ok(Header { kind: b[4], metadata: metadata as usize, payload: payload as usize })
    }
}

impl Header {
    pub fn encode(&self) -> (r: Result<[u8; 12], Error>)
        ensures
            match r {
                Ok(b) => self.metadata + self.payload <= u32::MAX && b@ == header_bytes(*self),
                Err(e) => self.metadata + self.payload > u32::MAX && e == Error::MessageTooLarge,
            },
    {
        let body: u64 = match self.metadata.checked_add(self.payload) {
            Some(n) if n as u64 <= u32::MAX as u64 => n as u64,
            _ => return Err(Error::MessageTooLarge),
        };
        let mut b: Vec<u8> = Vec::new();
        push_be(&mut b, body, 4);
        b.push(self.kind);
        b.push(0);
        b.push(0);
        b.push(0);
        push_be(&mut b, self.metadata as u64, 4);
        proof {
            lemma_be_bytes_len(body as nat, 4);
            lemma_be_bytes_len(self.metadata as nat, 4);
            assert(b@ =~= header_bytes(*self));
        }
        Ok(to_array(b.as_slice()))
    }

    pub fn decode(b: [u8; 12], max_payload: usize) -> (r: Result<Header, Error>)
        ensures
            r == header_of(b@, max_payload as nat),
    {
        proof {
            lemma_be_limits();
            lemma_be_value_round_trip(b@.subrange(0, 4));
            lemma_be_value_round_trip(b@.subrange(8, 12));
        }
        let body: usize = read_be(&b.as_slice()[0..4]) as usize;
        let metadata: usize = read_be(&b.as_slice()[8..12]) as usize;
        if b[5] != 0 || b[6] != 0 || b[7] != 0 || b[4] < 1 || b[4] > 12 || metadata > body {
            return Err(Error::Protocol("frame prefix"));
        }
        let payload: usize = body - metadata;
        if metadata > MAX_METADATA || payload > max_payload {
            return Err(Error::MessageTooLarge);
        }
        if b[4] != DATA && payload != 0 {
            return Err(Error::Protocol("control payload"));
        }
        Ok(Header { kind: b[4], metadata, payload })
    }
}

/// Decoding an encoded prefix gives it back, if it is one that a peer accepts.
pub proof fn law_header_round_trip(h: Header, max_payload: nat)
    requires
        h.metadata + h.payload <= u32::MAX,
        1 <= h.kind <= 12,
        h.metadata <= MAX_METADATA,
        h.payload <= max_payload,
        h.kind == DATA || h.payload == 0,
    ensures
        header_bytes(h).len() == 12,
        header_of(header_bytes(h), max_payload) == Ok::<Header, Error>(h),
{
    let body = (h.metadata + h.payload) as nat;
    lemma_be_limits();
    lemma_be_round_trip(body, 4);
    lemma_be_round_trip(h.metadata as nat, 4);
    assert(header_bytes(h).subrange(0, 4) =~= be_bytes(body, 4));
    assert(header_bytes(h).subrange(8, 12) =~= be_bytes(h.metadata as nat, 4));
}

/// No two byte strings decode to one prefix: what is decoded encodes to the bytes it came from.
pub proof fn law_header_canonical(b: Seq<u8>, max_payload: nat)
    requires
        b.len() == 12,
    ensures
        header_of(b, max_payload) matches Ok(h) ==> header_bytes(h) == b,
{
    if header_of(b, max_payload) is Ok {
        let h = header_of(b, max_payload)->Ok_0;
        lemma_be_limits();
        lemma_be_value_round_trip(b.subrange(0, 4));
        lemma_be_value_round_trip(b.subrange(8, 12));
        assert(header_bytes(h) =~= b);
    }
}

/// The prefix of a frame with the given sections, which is written before them.
pub open spec fn frame_prefix_bytes(kind: u8, metadata: nat, payload: nat) -> Result<
    Seq<u8>,
    Error,
> {
    if metadata > MAX_METADATA || metadata + payload > u32::MAX {
        Err(Error::MessageTooLarge)
    } else {
        Ok(
            header_bytes(
                Header { kind, metadata: metadata as usize, payload: payload as usize },
            ),
        )
    }
}

/// The prefix to write before a frame's metadata and payload.
pub fn frame_prefix(kind: u8, metadata: &[u8], payload: &[u8]) -> (r: Result<[u8; 12], Error>)
    ensures
        match frame_prefix_bytes(kind, metadata@.len(), payload@.len()) {
            Ok(b) => r is Ok && r->Ok_0@ == b,
            Err(e) => r is Err && r->Err_0 == e,
        },
{
    if metadata.len() > MAX_METADATA {
        return Err(Error::MessageTooLarge);
    }
    Header { kind, metadata: metadata.len(), payload: payload.len() }.encode()
}

// Opening a session

/// What an endpoint says of itself when it opens a session.
#[derive(Debug, PartialEq, Eq)]
pub struct Hello {
    pub cert: Vec<u8>,
    pub nonce: Id,
    pub max_payload: usize,
    pub max_topics: usize,
    pub window_secs: u64,
}

/// What an endpoint says of itself when it opens a session, as a value.
#[verifier::ext_equal]
pub struct HelloView {
    pub cert: Seq<u8>,
    pub nonce: Seq<u8>,
    pub max_payload: u64,
    pub max_topics: u64,
    pub window_secs: u64,
}

impl View for Hello {
    type V = HelloView;

    open spec fn view(&self) -> HelloView {
        HelloView {
            cert: self.cert@,
            nonce: self.nonce@,
            max_payload: self.max_payload as u64,
            max_topics: self.max_topics as u64,
            window_secs: self.window_secs,
        }
    }
}

pub open spec fn hello_bytes(h: HelloView) -> Seq<u8> {
    array_head(6) + (uint_item(1) + (bytes_item(h.cert) + (bytes_item(h.nonce) + (uint_item(
        h.max_payload,
    ) + (uint_item(h.max_topics) + uint_item(h.window_secs))))))
}

/// The limits that a peer may offer.
pub open spec fn hello_limits(h: HelloView) -> bool {
    &&& 0 < h.max_payload <= 0x10_0000
    &&& 0 < h.max_topics <= 256
    &&& 0 < h.window_secs <= 300
}

pub open spec fn hello_of(b: Seq<u8>) -> Result<HelloView, Error> {
    match take_array(b, 6) { Err(e) => Err(e), Ok(s) =>
    match take_version(s, 1) { Err(e) => Err(e), Ok(s) =>
    match take_bytes(s, MAX_CERT as nat) { Err(e) => Err(e), Ok((cert, s)) =>
    match take_fixed(s, 16) { Err(e) => Err(e), Ok((nonce, s)) =>
    match take_size(s) { Err(e) => Err(e), Ok((max_payload, s)) =>
    match take_size(s) { Err(e) => Err(e), Ok((max_topics, s)) =>
    match take_u(s) { Err(e) => Err(e), Ok((window_secs, s)) =>
    match take_end(s) { Err(e) => Err(e), Ok(()) => {
        let h = HelloView { cert, nonce, max_payload, max_topics, window_secs };
        if !hello_limits(h) {
            Err(Error::Protocol("HELLO limits"))
        } else {
            match canonical_check(b, hello_bytes(h)) {
                Err(e) => Err(e),
                Ok(()) => Ok(h),
            }
        }
    } } } } } } } } }
}

/// What an endpoint says of itself when it opens a session, in bytes.
pub fn hello(
    cert: &[u8],
    nonce: Id,
    max_payload: usize,
    max_topics: usize,
    window_secs: u64,
) -> (b: Vec<u8>)
    ensures
        b@ == hello_bytes(
            (HelloView {
                cert: cert@,
                nonce: nonce@,
                max_payload: max_payload as u64,
                max_topics: max_topics as u64,
                window_secs,
            }),
        ),
{
    let mut w = Writer::new();
    w.array(6);
    w.u(1);
    w.bytes(cert);
    w.bytes(&nonce);
    w.u(max_payload as u64);
    w.u(max_topics as u64);
    w.u(window_secs);
    w.finish()
}

/// Reads what a peer says of itself.
pub fn parse_hello(b: &[u8]) -> (r: Result<Hello, Error>)
    ensures
        match hello_of(b@) {
            Ok(h) => r is Ok && r->Ok_0@ == h,
            Err(e) => r is Err && r->Err_0 == e,
        },
{
    let mut r = Reader::new(b);
    r.array(6)?;
    read_version(&mut r, 1)?;
    let cert = slice_to_vec(r.bytes(MAX_CERT)?);
    let nonce: Id = r.fixed()?;
    let max_payload: usize = read_size(&mut r)?;
    let max_topics: usize = read_size(&mut r)?;
    let window_secs: u64 = r.u()?;
    r.end()?;
    if max_payload == 0 || max_payload > 0x10_0000 || max_topics == 0 || max_topics > 256
        || window_secs == 0 || window_secs > 300 {
        return Err(Error::Protocol("HELLO limits"));
    }
    canonical(b, hello(cert.as_slice(), nonce, max_payload, max_topics, window_secs).as_slice())?;
    Ok(Hello { cert, nonce, max_payload, max_topics, window_secs })
}

/// A peer reads what the other end said of itself, within the limits that may be offered.
pub proof fn law_hello_round_trip(h: HelloView)
    requires
        h.cert.len() <= MAX_CERT,
        h.nonce.len() == 16,
        hello_limits(h),
    ensures
        hello_of(hello_bytes(h)) == Ok::<HelloView, Error>(h),
{
    broadcast use {group_read_back, group_fields_back};

}

/// The confirmation of a session between two nonces.
pub open spec fn ready_bytes(local: Seq<u8>, remote: Seq<u8>) -> Seq<u8> {
    array_head(3) + (uint_item(1) + (bytes_item(local) + bytes_item(remote)))
}

/// The confirmation of a session: the nonce of the sender and that of the receiver.
pub fn ready(local: Id, remote: Id) -> (b: Vec<u8>)
    ensures
        b@ == ready_bytes(local@, remote@),
{
    let mut w = Writer::new();
    w.array(3);
    w.u(1);
    w.bytes(&local);
    w.bytes(&remote);
    w.finish()
}

// Control records

/// What two endpoints tell each other beside the messages themselves.
#[derive(Debug)]
pub enum Control {
    Subscribe { topic: Topic, sub: Id, mode: DeliveryMode },
    Suback { topic: Topic, sub: Id, code: u64 },
    Unsubscribe { topic: Topic, sub: Id },
    Credit { topic: Topic, sub: Id, bytes: usize },
    RequestCredit { topic: Topic, sub: Id, bytes: usize },
    Outcome { topic: Topic, sub: Id, epoch: Id, sequence: u64, code: u64 },
    Error(u64),
    Goodbye,
}

/// What two endpoints tell each other beside the messages themselves, as a value.
#[verifier::ext_equal]
pub enum ControlView {
    Subscribe { topic: Seq<char>, sub: Seq<u8>, mode: DeliveryMode },
    Suback { topic: Seq<char>, sub: Seq<u8>, code: u64 },
    Unsubscribe { topic: Seq<char>, sub: Seq<u8> },
    Credit { topic: Seq<char>, sub: Seq<u8>, bytes: u64 },
    RequestCredit { topic: Seq<char>, sub: Seq<u8>, bytes: u64 },
    Outcome { topic: Seq<char>, sub: Seq<u8>, epoch: Seq<u8>, sequence: u64, code: u64 },
    Error(u64),
    Goodbye,
}

impl View for Control {
    type V = ControlView;

    open spec fn view(&self) -> ControlView {
        match *self {
            Control::Subscribe { topic, sub, mode } => ControlView::Subscribe {
                topic: topic@,
                sub: sub@,
                mode,
            },
            Control::Suback { topic, sub, code } => ControlView::Suback {
                topic: topic@,
                sub: sub@,
                code,
            },
            Control::Unsubscribe { topic, sub } => ControlView::Unsubscribe {
                topic: topic@,
                sub: sub@,
            },
            Control::Credit { topic, sub, bytes } => ControlView::Credit {
                topic: topic@,
                sub: sub@,
                bytes: bytes as u64,
            },
            Control::RequestCredit { topic, sub, bytes } => ControlView::RequestCredit {
                topic: topic@,
                sub: sub@,
                bytes: bytes as u64,
            },
            Control::Outcome { topic, sub, epoch, sequence, code } => ControlView::Outcome {
                topic: topic@,
                sub: sub@,
                epoch: epoch@,
                sequence,
                code,
            },
            Control::Error(code) => ControlView::Error(code),
            Control::Goodbye => ControlView::Goodbye,
        }
    }
}

impl Clone for Control {
    fn clone(&self) -> (c: Self)
        ensures
            c@ == self@,
    {
        match self {
            Control::Subscribe { topic, sub, mode } => Control::Subscribe {
                topic: topic.clone(),
                sub: *sub,
                mode: *mode,
            },
            Control::Suback { topic, sub, code } => Control::Suback {
                topic: topic.clone(),
                sub: *sub,
                code: *code,
            },
            Control::Unsubscribe { topic, sub } => Control::Unsubscribe {
                topic: topic.clone(),
                sub: *sub,
            },
            Control::Credit { topic, sub, bytes } => Control::Credit {
                topic: topic.clone(),
                sub: *sub,
                bytes: *bytes,
            },
            Control::RequestCredit { topic, sub, bytes } => Control::RequestCredit {
                topic: topic.clone(),
                sub: *sub,
                bytes: *bytes,
            },
            Control::Outcome { topic, sub, epoch, sequence, code } => Control::Outcome {
                topic: topic.clone(),
                sub: *sub,
                epoch: *epoch,
                sequence: *sequence,
                code: *code,
            },
            Control::Error(code) => Control::Error(*code),
            Control::Goodbye => Control::Goodbye,
        }
    }
}

/// The kind of frame that carries a control record.
pub open spec fn control_kind(c: ControlView) -> u8 {
    match c {
        ControlView::Subscribe { .. } => 3,
        ControlView::Suback { .. } => 4,
        ControlView::Unsubscribe { .. } => 5,
        ControlView::Credit { .. } => 6,
        ControlView::RequestCredit { .. } => 6,
        ControlView::Outcome { code, .. } => if code == 0 {
            8
        } else {
            9
        },
        ControlView::Error(_) => 11,
        ControlView::Goodbye => 12,
    }
}

/// The number of items in the record that a kind of control frame carries.
pub open spec fn control_items(kind: u8) -> Option<nat> {
    if kind == 3 || kind == 4 {
        Some(5)
    } else if kind == 5 {
        Some(4)
    } else if kind == 6 {
        Some(6)
    } else if kind == 8 || kind == 9 {
        Some(7)
    } else if kind == 11 {
        Some(3)
    } else if kind == 12 {
        Some(2)
    } else {
        None
    }
}

/// The fields of a control record after the version and the session.
pub open spec fn control_fields(c: ControlView) -> Seq<u8> {
    match c {
        ControlView::Subscribe { topic, sub, mode } => text_item(topic) + (bytes_item(sub)
            + uint_item(mode_number(mode))),
        ControlView::Suback { topic, sub, code } => text_item(topic) + (bytes_item(sub)
            + uint_item(code)),
        ControlView::Unsubscribe { topic, sub } => text_item(topic) + bytes_item(sub),
        ControlView::Credit { topic, sub, bytes } => text_item(topic) + (bytes_item(sub) + (
        uint_item(1) + uint_item(bytes))),
        ControlView::RequestCredit { topic, sub, bytes } => text_item(topic) + (bytes_item(sub) + (
        uint_item(0) + uint_item(bytes))),
        ControlView::Outcome { topic, sub, epoch, sequence, code } => text_item(topic) + (
        bytes_item(sub) + (bytes_item(epoch) + (uint_item(sequence) + uint_item(code)))),
        ControlView::Error(code) => uint_item(code),
        ControlView::Goodbye => Seq::empty(),
    }
}

/// A control record of a session.
pub open spec fn control_bytes(c: ControlView, session: Seq<u8>) -> Seq<u8> {
    array_head(control_items(control_kind(c))->0 as u64) + (uint_item(1) + (bytes_item(session)
        + control_fields(c)))
}

/// Reads the fields of a control record of the given kind.
pub open spec fn take_control_fields(kind: u8, s: Seq<u8>) -> Result<
    (ControlView, Seq<u8>),
    Error,
> {
    if kind == 11 {
        match take_u(s) {
            Err(e) => Err(e),
            Ok((code, s)) => Ok((ControlView::Error(code), s)),
        }
    } else if kind == 12 {
        Ok((ControlView::Goodbye, s))
    } else {
        match take_topic(s) { Err(e) => Err(e), Ok((topic, s)) =>
        match take_fixed(s, 16) { Err(e) => Err(e), Ok((sub, s)) =>
        if kind == 3 {
            match take_mode(s) {
                Err(e) => Err(e),
                Ok((mode, s)) => Ok((ControlView::Subscribe { topic, sub, mode }, s)),
            }
        } else if kind == 4 {
            match take_u(s) {
                Err(e) => Err(e),
                Ok((code, s)) => Ok((ControlView::Suback { topic, sub, code }, s)),
            }
        } else if kind == 5 {
            Ok((ControlView::Unsubscribe { topic, sub }, s))
        } else if kind == 6 {
            match take_u(s) { Err(e) => Err(e), Ok((slots, s)) =>
            match take_size(s) { Err(e) => Err(e), Ok((bytes, s)) =>
            if slots == 0 {
                Ok((ControlView::RequestCredit { topic, sub, bytes }, s))
            } else if slots == 1 {
                Ok((ControlView::Credit { topic, sub, bytes }, s))
            } else {
                Err(Error::Protocol("credit slots"))
            } } }
        } else {
            match take_fixed(s, 16) { Err(e) => Err(e), Ok((epoch, s)) =>
            match take_u(s) { Err(e) => Err(e), Ok((sequence, s)) =>
            match take_u(s) { Err(e) => Err(e), Ok((code, s)) =>
            if (kind == 8 && code != 0) || (kind == 9 && !(1 <= code <= 2)) {
                Err(Error::Protocol("outcome code"))
            } else {
                Ok((ControlView::Outcome { topic, sub, epoch, sequence, code }, s))
            } } } }
        } } }
    }
}

/// The control record that a frame of the given kind carries in a session.
pub open spec fn control_of(kind: u8, b: Seq<u8>, session: Seq<u8>) -> Result<ControlView, Error> {
    match control_items(kind) {
        None => Err(Error::Protocol("control frame type")),
        Some(items) =>
        match take_array(b, items) { Err(e) => Err(e), Ok(s) =>
        match take_version(s, 1) { Err(e) => Err(e), Ok(s) =>
        match take_fixed(s, 16) { Err(e) => Err(e), Ok((named, s)) =>
        if named != session {
            Err(Error::Protocol("session mismatch"))
        } else {
            match take_control_fields(kind, s) { Err(e) => Err(e), Ok((c, s)) =>
            match take_end(s) { Err(e) => Err(e), Ok(()) =>
            match canonical_check(b, control_bytes(c, session)) {
                Err(e) => Err(e),
                Ok(()) => Ok(c),
            } } }
        } } } },
    }
}

/// Whether a control record is one that a peer takes.
pub open spec fn control_valid(c: ControlView) -> bool {
    match c {
        ControlView::Subscribe { topic, sub, .. } => valid_topic(topic) && sub.len() == 16,
        ControlView::Suback { topic, sub, .. } => valid_topic(topic) && sub.len() == 16,
        ControlView::Unsubscribe { topic, sub } => valid_topic(topic) && sub.len() == 16,
        ControlView::Credit { topic, sub, bytes } => valid_topic(topic) && sub.len() == 16 && bytes
            <= usize::MAX,
        ControlView::RequestCredit { topic, sub, bytes } => valid_topic(topic) && sub.len() == 16
            && bytes <= usize::MAX,
        ControlView::Outcome { topic, sub, epoch, code, .. } => valid_topic(topic) && sub.len()
            == 16 && epoch.len() == 16 && code <= 2,
        ControlView::Error(_) => true,
        ControlView::Goodbye => true,
    }
}

proof fn lemma_take_control_fields(c: ControlView)
    requires
        control_valid(c),
    ensures
        take_control_fields(control_kind(c), control_fields(c)) == Ok::<
            (ControlView, Seq<u8>),
            Error,
        >((c, Seq::empty())),
{
    broadcast use {group_read_back, group_fields_back};

}

/// A peer reads the control record that was written, in the session that it was written for.
pub proof fn law_control_round_trip(c: ControlView, session: Seq<u8>)
    requires
        session.len() == 16,
        control_valid(c),
    ensures
        control_of(control_kind(c), control_bytes(c, session), session) == Ok::<ControlView, Error>(
            c,
        ),
{
    broadcast use {group_read_back, group_fields_back};

    lemma_take_control_fields(c);
}

/// A control record that is taken is the one way to write what it says, under the one kind of
/// frame that carries it.
pub proof fn law_control_canonical(kind: u8, b: Seq<u8>, session: Seq<u8>)
    ensures
        control_of(kind, b, session) matches Ok(c) ==> control_kind(c) == kind && control_bytes(
            c,
            session,
        ) == b,
{
}

impl Control {
    /// The kind of frame that carries this record in `session`, and its bytes.
    pub fn encode(&self, session: Id) -> (r: (u8, Vec<u8>))
        ensures
            r.0 == control_kind(self@),
            r.1@ == control_bytes(self@, session@),
    {
        let mut w = Writer::new();
        let (kind, len): (u8, usize) = match self {
            Control::Subscribe { .. } => (3, 5),
            Control::Suback { .. } => (4, 5),
            Control::Unsubscribe { .. } => (5, 4),
            Control::Credit { .. } => (6, 6),
            Control::RequestCredit { .. } => (6, 6),
            Control::Outcome { code, .. } => if *code == 0 {
                (8, 7)
            } else {
                (9, 7)
            },
            Control::Error(_) => (11, 3),
            Control::Goodbye => (12, 2),
        };
        w.array(len);
        w.u(1);
        w.bytes(&session);
        match self {
            Control::Subscribe { topic, sub, mode } => {
                w.text(topic.as_str());
                w.bytes(sub);
                w.u(mode.number());
            },
            Control::Suback { topic, sub, code } => {
                w.text(topic.as_str());
                w.bytes(sub);
                w.u(*code);
            },
            Control::Unsubscribe { topic, sub } => {
                w.text(topic.as_str());
                w.bytes(sub);
            },
            Control::RequestCredit { topic, sub, bytes } => {
                w.text(topic.as_str());
                w.bytes(sub);
                w.u(0);
                w.u(*bytes as u64);
            },
            Control::Credit { topic, sub, bytes } => {
                w.text(topic.as_str());
                w.bytes(sub);
                w.u(1);
                w.u(*bytes as u64);
            },
            Control::Outcome { topic, sub, epoch, sequence, code } => {
                w.text(topic.as_str());
                w.bytes(sub);
                w.bytes(epoch);
                w.u(*sequence);
                w.u(*code);
            },
            Control::Error(code) => {
                w.u(*code);
            },
            Control::Goodbye => {},
        }
        proof {
            lemma_nothing_after(bytes_item(session@));
        }
        (kind, w.finish())
    }

    /// Reads the fields that follow the session.
    fn decode_fields(kind: u8, r: &mut Reader) -> (c: Result<Control, Error>)
        requires
            old(r).wf(),
            control_items(kind) is Some,
        ensures
            final(r).wf(),
            match take_control_fields(kind, old(r)@) {
                Ok((v, rest)) => c is Ok && c->Ok_0@ == v && final(r)@ == rest,
                Err(e) => c is Err && c->Err_0 == e,
            },
    {
        if kind == 11 {
            let code: u64 = r.u()?;
            return Ok(Control::Error(code));
        }
        if kind == 12 {
            return Ok(Control::Goodbye);
        }
        let topic = read_topic(r)?;
        let sub: Id = r.fixed()?;
        if kind == 3 {
            let mode = read_mode(r)?;
            Ok(Control::Subscribe { topic, sub, mode })
        } else if kind == 4 {
            let code: u64 = r.u()?;
            Ok(Control::Suback { topic, sub, code })
        } else if kind == 5 {
            Ok(Control::Unsubscribe { topic, sub })
        } else if kind == 6 {
            let slots: u64 = r.u()?;
            let bytes: usize = read_size(r)?;
            if slots == 0 {
                Ok(Control::RequestCredit { topic, sub, bytes })
            } else if slots == 1 {
                Ok(Control::Credit { topic, sub, bytes })
            } else {
                Err(Error::Protocol("credit slots"))
            }
        } else {
            let epoch: Id = r.fixed()?;
            let sequence: u64 = r.u()?;
            let code: u64 = r.u()?;
            if (kind == 8 && code != 0) || (kind == 9 && (code < 1 || code > 2)) {
                return Err(Error::Protocol("outcome code"));
            }
            Ok(Control::Outcome { topic, sub, epoch, sequence, code })
        }
    }

    /// Reads the control record that a frame of the given kind carries in `session`.
    pub fn decode(kind: u8, b: &[u8], session: Id) -> (r: Result<Control, Error>)
        ensures
            match control_of(kind, b@, session@) {
                Ok(c) => r is Ok && r->Ok_0@ == c,
                Err(e) => r is Err && r->Err_0 == e,
            },
    {
        let len: usize = match kind {
            3 | 4 => 5,
            5 => 4,
            6 => 6,
            8 | 9 => 7,
            11 => 3,
            12 => 2,
            _ => return Err(Error::Protocol("control frame type")),
        };
        let mut r = Reader::new(b);
        r.array(len)?;
        read_version(&mut r, 1)?;
        let named: Id = r.fixed()?;
        if !same_bytes(&named, &session) {
            return Err(Error::Protocol("session mismatch"));
        }
        let c = Control::decode_fields(kind, &mut r)?;
        r.end()?;
        let (_, encoded) = c.encode(session);
        canonical(b, encoded.as_slice())?;
        Ok(c)
    }
}

// Messages

/// The metadata of a message: its session, the subscription it is for, and its signed envelope.
pub open spec fn data_bytes(session: Seq<u8>, sub: Seq<u8>, envelope: Seq<u8>) -> Seq<u8> {
    array_head(4) + (uint_item(1) + (bytes_item(session) + (bytes_item(sub) + bytes_item(
        envelope,
    ))))
}

/// The subscription and the envelope of a message in the session `expected`.
pub open spec fn data_of(b: Seq<u8>, expected: Seq<u8>) -> Result<(Seq<u8>, Seq<u8>), Error> {
    match take_array(b, 4) { Err(e) => Err(e), Ok(s) =>
    match take_version(s, 1) { Err(e) => Err(e), Ok(s) =>
    match take_fixed(s, 16) { Err(e) => Err(e), Ok((session, s)) =>
    if session != expected {
        Err(Error::Protocol("DATA session"))
    } else {
        match take_fixed(s, 16) { Err(e) => Err(e), Ok((sub, s)) =>
        match take_bytes(s, 4096) { Err(e) => Err(e), Ok((envelope, s)) =>
        match take_end(s) { Err(e) => Err(e), Ok(()) =>
        match canonical_check(b, data_bytes(expected, sub, envelope)) {
            Err(e) => Err(e),
            Ok(()) => Ok((sub, envelope)),
        } } } }
    } } } }
}

/// The metadata of a message.
pub fn data(session: Id, sub: Id, envelope: &[u8]) -> (b: Vec<u8>)
    ensures
        b@ == data_bytes(session@, sub@, envelope@),
{
    let mut w = Writer::new();
    w.array(4);
    w.u(1);
    w.bytes(&session);
    w.bytes(&sub);
    w.bytes(envelope);
    w.finish()
}

/// Reads the metadata of a message in the session `expected`.
pub fn parse_data(b: &[u8], expected: Id) -> (r: Result<(Id, Vec<u8>), Error>)
    ensures
        match data_of(b@, expected@) {
            Ok((sub, envelope)) => r is Ok && r->Ok_0.0@ == sub && r->Ok_0.1@ == envelope,
            Err(e) => r is Err && r->Err_0 == e,
        },
{
    let mut r = Reader::new(b);
    r.array(4)?;
    read_version(&mut r, 1)?;
    let session: Id = r.fixed()?;
    if !same_bytes(&session, &expected) {
        return Err(Error::Protocol("DATA session"));
    }
    let sub: Id = r.fixed()?;
    let envelope = slice_to_vec(r.bytes(4096)?);
    r.end()?;
    canonical(b, data(expected, sub, envelope.as_slice()).as_slice())?;
    Ok((sub, envelope))
}

/// A peer reads the metadata that was written, in the session that it was written for.
pub proof fn law_data_round_trip(session: Seq<u8>, sub: Seq<u8>, envelope: Seq<u8>)
    requires
        session.len() == 16,
        sub.len() == 16,
        envelope.len() <= 4096,
    ensures
        data_of(data_bytes(session, sub, envelope), session) == Ok::<(Seq<u8>, Seq<u8>), Error>(
            (sub, envelope),
        ),
{
    broadcast use {group_read_back, group_fields_back};

}

/// A greeting that is read is the one way to write what it says.
pub proof fn law_hello_canonical(b: Seq<u8>)
    ensures
        hello_of(b) matches Ok(h) ==> hello_bytes(h) == b && hello_limits(h),
{
}

/// A message that is read is the one way to write what it says, in its session.
pub proof fn law_data_canonical(b: Seq<u8>, session: Seq<u8>)
    ensures
        data_of(b, session) matches Ok((sub, envelope)) ==> data_bytes(session, sub, envelope) == b,
{
}

} // verus!
