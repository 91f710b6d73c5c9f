//! Topics, message identities and the signed envelope that travels in front of a payload.
use crate::cbor::{
    array_head, bytes_item, canonical, canonical_check, lemma_head_len, lemma_take_array,
    lemma_take_fixed, lemma_take_last_u, lemma_take_text, lemma_take_u, take_array, take_end,
    take_fixed, take_text, take_u, text_item, uint_item, Reader, Writer,
};
use crate::cose::{
    container, lemma_container_prefix, sign_cose, signed_bytes, verified_payload, verify_cose,
};
use crate::crypto::{
    digest, is_public_key, proper_commitment, public_key, sha256, signature, EndpointId, Id,
    Secret,
};
use crate::error::Error;
use crate::octets::{
    bytes_less, compare_bytes, lemma_bytes_less_irreflexive, lemma_bytes_less_total,
    lemma_bytes_less_transitive, same_bytes, Relation,
};
use crate::ordered::Key;
use crate::record::{
    lemma_take_endpoint, lemma_take_size, lemma_take_topic, lemma_take_version, read_endpoint,
    read_mode, read_size, read_topic, read_version, take_endpoint, take_mode, take_size,
    take_topic, take_version,
};
use vstd::prelude::*;
use vstd::utf8::encode_utf8;

verus! {

// Topics

/// The longest topic, in bytes.
pub const MAX_TOPIC: usize = 256;

/// A byte that a topic may hold: an ASCII letter or digit, or one of `-`, `_`, `.` and `/`.
pub open spec fn topic_byte(b: u8) -> bool {
    ||| 0x30 <= b <= 0x39
    ||| 0x41 <= b <= 0x5a
    ||| 0x61 <= b <= 0x7a
    ||| b == 0x2d
    ||| b == 0x5f
    ||| b == 0x2e
    ||| b == 0x2f
}

/// Whether these bytes name a topic: one to 256 permitted bytes, and no empty segment between,
/// before or after slashes.
pub open spec fn topic_bytes(b: Seq<u8>) -> bool {
    &&& 0 < b.len() <= MAX_TOPIC
    &&& forall|i: int| 0 <= i < b.len() ==> topic_byte(#[trigger] b[i])
    &&& b[0] != 0x2f
    &&& b.last() != 0x2f
    &&& forall|i: int, j: int|
        0 <= i && j == i + 1 && j < b.len() ==> !(#[trigger] b[i] == 0x2f && #[trigger] b[j] == 0x2f)
}

/// Whether `name` names a topic.
pub open spec fn valid_topic(name: Seq<char>) -> bool {
    topic_bytes(encode_utf8(name))
}

/// The name of a channel that messages are published to. Topics match exactly, letter for letter.
/// Its view is the name.
#[derive(Debug, PartialEq, Eq, Hash, PartialOrd, Ord)]
pub struct Topic {
    name: String,
}

impl View for Topic {
    type V = Seq<char>;

    closed spec fn view(&self) -> Seq<char> {
        self.name@
    }
}

impl Topic {
    /// Every topic that was made is validly named.
    #[verifier::type_invariant]
    pub open spec fn well_named(self) -> bool {
        valid_topic(self@)
    }

    /// The topic of the given name, if it names one.
    pub fn new(s: &str) -> (r: Result<Topic, Error>)
        ensures
            match r {
                Ok(topic) => valid_topic(s@) && topic@ == s@,
                Err(e) => !valid_topic(s@) && e == Error::InvalidTopic,
            },
    {
        let b = s.as_bytes();
        if b.len() == 0 || b.len() > MAX_TOPIC || b[0] == 0x2f || b[b.len() - 1] == 0x2f {
            return Err(Error::InvalidTopic);
        }
        let mut i: usize = 0;
        while i < b.len()
            invariant
                b@ == encode_utf8(s@),
                i <= b.len(),
                0 < b.len() <= MAX_TOPIC,
                b@[0] != 0x2f,
                b@.last() != 0x2f,
                forall|k: int| 0 <= k < i ==> topic_byte(#[trigger] b@[k]),
                forall|k: int, j: int|
                    0 <= k && j == k + 1 && j < i ==> !(#[trigger] b@[k] == 0x2f && #[trigger] b@[j]
                        == 0x2f),
            decreases b.len() - i,
        {
            let c: u8 = b[i];
            let letter = (0x30 <= c && c <= 0x39) || (0x41 <= c && c <= 0x5a) || (0x61 <= c && c
                <= 0x7a);
            if !letter && c != 0x2d && c != 0x5f && c != 0x2e && c != 0x2f {
                assert(!topic_byte(b@[i as int]));
                return Err(Error::InvalidTopic);
            }
            if c == 0x2f && b[i - 1] == 0x2f {
                assert(b@[i - 1] == 0x2f && b@[i as int] == 0x2f);
                return Err(Error::InvalidTopic);
            }
            i = i + 1;
        }
        Ok(Topic { name: s.to_owned() })
    }

    pub fn as_str(&self) -> (s: &str)
        ensures
            s@ == self@,
    {
        self.name.as_str()
    }

    /// Whether this topic comes before `other`.
    pub fn before(&self, other: &Topic) -> (r: bool)
        ensures
            r == text_less(self@, other@),
    {
        match self.compare(other) {
            Relation::Less => true,
            Relation::Same => {
                proof {
                    lemma_bytes_less_irreflexive(encode_utf8(self@));
                }
                false
            },
            Relation::Greater => {
                proof {
                    if text_less(self@, other@) {
                        lemma_bytes_less_transitive(
                            encode_utf8(self@),
                            encode_utf8(other@),
                            encode_utf8(self@),
                        );
                        lemma_bytes_less_irreflexive(encode_utf8(self@));
                    }
                }
                false
            },
        }
    }

    /// Whether this is the topic `other`.
    pub fn same(&self, other: &Topic) -> (r: bool)
        ensures
            r == (self@ == other@),
    {
        let a = self.name.as_str();
        let b = other.name.as_str();
        proof {
            lemma_utf8_injective(a@, b@);
        }
        same_bytes(a.as_bytes(), b.as_bytes())
    }
}

impl Clone for Topic {
    fn clone(&self) -> (t: Self)
        ensures
            t@ == self@,
    {
        proof {
            use_type_invariant(self);
        }
        Topic { name: self.name.clone() }
    }
}

/// Texts with the same encoding are the same text.
pub proof fn lemma_utf8_injective(a: Seq<char>, b: Seq<char>)
    ensures
        encode_utf8(a) == encode_utf8(b) ==> a == b,
{
    vstd::utf8::encode_utf8_decode_utf8(a);
    vstd::utf8::encode_utf8_decode_utf8(b);
}

/// The order of texts by their encoding.
pub open spec fn text_less(a: Seq<char>, b: Seq<char>) -> bool {
    bytes_less(encode_utf8(a), encode_utf8(b))
}

impl Key for Topic {
    open spec fn less(a: Seq<char>, b: Seq<char>) -> bool {
        text_less(a, b)
    }

    proof fn less_irreflexive(a: Seq<char>) {
        lemma_bytes_less_irreflexive(encode_utf8(a));
    }

    proof fn less_transitive(a: Seq<char>, b: Seq<char>, c: Seq<char>) {
        lemma_bytes_less_transitive(encode_utf8(a), encode_utf8(b), encode_utf8(c));
    }

    proof fn less_total(a: Seq<char>, b: Seq<char>) {
        lemma_bytes_less_total(encode_utf8(a), encode_utf8(b));
        lemma_utf8_injective(a, b);
    }

    fn compare(&self, other: &Self) -> (r: Relation) {
        compare_topics(self, other)
    }
}

/// How one topic stands to another in the order of their names.
fn compare_topics(a: &Topic, b: &Topic) -> (r: Relation)
    ensures
        match r {
            Relation::Less => text_less(a@, b@),
            Relation::Same => a@ == b@,
            Relation::Greater => text_less(b@, a@),
        },
{
    let a = a.name.as_str();
    let b = b.name.as_str();
    proof {
        lemma_utf8_injective(a@, b@);
    }
    compare_bytes(a.as_bytes(), b.as_bytes())
}

// Delivery

/// Whether the publisher hears of what became of a message.
#[derive(Debug, Clone, Copy, PartialEq, Eq, Structural)]
pub enum DeliveryMode {
    BestEffort,
    Acknowledged,
}

/// The number that stands for a delivery mode in a record.
pub open spec fn mode_number(mode: DeliveryMode) -> u64 {
    match mode {
        DeliveryMode::BestEffort => 0,
        DeliveryMode::Acknowledged => 1,
    }
}

/// The delivery mode that a number stands for.
pub open spec fn mode_of(n: u64) -> Result<DeliveryMode, Error> {
    if n == 0 {
        Ok(DeliveryMode::BestEffort)
    } else if n == 1 {
        Ok(DeliveryMode::Acknowledged)
    } else {
        Err(Error::Protocol("delivery mode"))
    }
}

impl DeliveryMode {
    pub fn number(self) -> (n: u64)
        ensures
            n == mode_number(self),
    {
        match self {
            DeliveryMode::BestEffort => 0,
            DeliveryMode::Acknowledged => 1,
        }
    }

    pub fn decode(n: u64) -> (r: Result<DeliveryMode, Error>)
        ensures
            r == mode_of(n),
    {
        match n {
            0 => Ok(DeliveryMode::BestEffort),
            1 => Ok(DeliveryMode::Acknowledged),
            _ => Err(Error::Protocol("delivery mode")),
        }
    }
}

/// How a subscriber refuses a message.
#[derive(Debug, Clone, Copy, PartialEq, Eq, Structural)]
pub enum Nack {
    Retryable,
    Permanent,
}

// Message identities

/// What tells one message from every other, as a value.
#[verifier::ext_equal]
pub struct MessageIdView {
    pub realm_id: Seq<u8>,
    pub publisher_endpoint_id: Seq<u8>,
    pub publisher_epoch: Seq<u8>,
    pub topic: Seq<char>,
    pub sequence: u64,
}

/// What tells one message from every other: who published it, in which run of which realm, and its
/// number on its topic.
#[derive(Debug, PartialEq, Eq, Hash, PartialOrd, Ord)]
pub struct MessageId {
    pub realm_id: Id,
    pub publisher_endpoint_id: EndpointId,
    pub publisher_epoch: Id,
    pub topic: Topic,
    pub sequence: u64,
}

impl View for MessageId {
    type V = MessageIdView;

    open spec fn view(&self) -> MessageIdView {
        MessageIdView {
            realm_id: self.realm_id@,
            publisher_endpoint_id: self.publisher_endpoint_id@,
            publisher_epoch: self.publisher_epoch@,
            topic: self.topic@,
            sequence: self.sequence,
        }
    }
}

impl Clone for MessageId {
    fn clone(&self) -> (id: Self)
        ensures
            id@ == self@,
    {
        MessageId {
            realm_id: self.realm_id,
            publisher_endpoint_id: self.publisher_endpoint_id,
            publisher_epoch: self.publisher_epoch,
            topic: self.topic.clone(),
            sequence: self.sequence,
        }
    }
}

/// Message identities in order of their fields, the first that differs deciding.
pub open spec fn message_less(a: MessageIdView, b: MessageIdView) -> bool {
    if a.realm_id != b.realm_id {
        bytes_less(a.realm_id, b.realm_id)
    } else if a.publisher_endpoint_id != b.publisher_endpoint_id {
        bytes_less(a.publisher_endpoint_id, b.publisher_endpoint_id)
    } else if a.publisher_epoch != b.publisher_epoch {
        bytes_less(a.publisher_epoch, b.publisher_epoch)
    } else if a.topic != b.topic {
        text_less(a.topic, b.topic)
    } else {
        a.sequence < b.sequence
    }
}

impl Key for MessageId {
    open spec fn less(a: MessageIdView, b: MessageIdView) -> bool {
        message_less(a, b)
    }

    proof fn less_irreflexive(a: MessageIdView) {
    }

    proof fn less_transitive(a: MessageIdView, b: MessageIdView, c: MessageIdView) {
        lemma_message_transitive(a, b, c);
    }

    proof fn less_total(a: MessageIdView, b: MessageIdView) {
        lemma_message_total(a, b);
    }

    fn compare(&self, other: &Self) -> (r: Relation) {
        compare_messages(self, other)
    }
}

pub proof fn lemma_message_transitive(a: MessageIdView, b: MessageIdView, c: MessageIdView)
    requires
        message_less(a, b),
        message_less(b, c),
    ensures
        message_less(a, c),
{
    lemma_order_step(a.realm_id, b.realm_id, c.realm_id);
    lemma_order_step(
        a.publisher_endpoint_id,
        b.publisher_endpoint_id,
        c.publisher_endpoint_id,
    );
    lemma_order_step(a.publisher_epoch, b.publisher_epoch, c.publisher_epoch);
    lemma_order_step(encode_utf8(a.topic), encode_utf8(b.topic), encode_utf8(c.topic));
    lemma_utf8_injective(a.topic, b.topic);
    lemma_utf8_injective(b.topic, c.topic);
    lemma_utf8_injective(a.topic, c.topic);
}

pub proof fn lemma_message_total(a: MessageIdView, b: MessageIdView)
    ensures
        message_less(a, b) || a == b || message_less(b, a),
{
    lemma_bytes_less_total(a.realm_id, b.realm_id);
    lemma_bytes_less_total(a.publisher_endpoint_id, b.publisher_endpoint_id);
    lemma_bytes_less_total(a.publisher_epoch, b.publisher_epoch);
    lemma_bytes_less_total(encode_utf8(a.topic), encode_utf8(b.topic));
    lemma_utf8_injective(a.topic, b.topic);
}

/// How one message identity stands to another in their order.
pub fn compare_messages(a: &MessageId, b: &MessageId) -> (r: Relation)
    ensures
        match r {
            Relation::Less => message_less(a@, b@),
            Relation::Same => a@ == b@,
            Relation::Greater => message_less(b@, a@),
        },
{
    match a.realm_id.compare(&b.realm_id) {
        Relation::Less => {
            proof {
                lemma_bytes_less_irreflexive(a.realm_id@);
            }
            return Relation::Less;
        },
        Relation::Greater => {
            proof {
                lemma_bytes_less_irreflexive(a.realm_id@);
            }
            return Relation::Greater;
        },
        Relation::Same => {},
    }
    match a.publisher_endpoint_id.compare(&b.publisher_endpoint_id) {
        Relation::Less => {
            proof {
                lemma_bytes_less_irreflexive(a.publisher_endpoint_id@);
            }
            return Relation::Less;
        },
        Relation::Greater => {
            proof {
                lemma_bytes_less_irreflexive(a.publisher_endpoint_id@);
            }
            return Relation::Greater;
        },
        Relation::Same => {},
    }
    match a.publisher_epoch.compare(&b.publisher_epoch) {
        Relation::Less => {
            proof {
                lemma_bytes_less_irreflexive(a.publisher_epoch@);
            }
            return Relation::Less;
        },
        Relation::Greater => {
            proof {
                lemma_bytes_less_irreflexive(a.publisher_epoch@);
            }
            return Relation::Greater;
        },
        Relation::Same => {},
    }
    match compare_topics(&a.topic, &b.topic) {
        Relation::Less => {
            proof {
                lemma_bytes_less_irreflexive(encode_utf8(a.topic@));
            }
            return Relation::Less;
        },
        Relation::Greater => {
            proof {
                lemma_bytes_less_irreflexive(encode_utf8(a.topic@));
            }
            return Relation::Greater;
        },
        Relation::Same => {},
    }
    if a.sequence < b.sequence {
        Relation::Less
    } else if a.sequence > b.sequence {
        Relation::Greater
    } else {
        Relation::Same
    }
}

/// One component of a comparison by components: where `a` stands before `b` and `b` before `c`, or
/// one of the two steps is none, `a` stands before `c`.
pub proof fn lemma_order_step(a: Seq<u8>, b: Seq<u8>, c: Seq<u8>)
    ensures
        bytes_less(a, b) && bytes_less(b, c) ==> bytes_less(a, c) && a != c,
        bytes_less(a, b) ==> a != b,
        bytes_less(b, c) ==> b != c,
{
    if bytes_less(a, b) && bytes_less(b, c) {
        lemma_bytes_less_transitive(a, b, c);
    }
    lemma_bytes_less_irreflexive(a);
    lemma_bytes_less_irreflexive(b);
}

// Envelopes

/// The longest signed envelope, in bytes.
pub const MAX_ENVELOPE: usize = 4096;

/// The longest name of a payload format, in bytes.
pub const MAX_FORMAT: usize = 256;

/// The purpose that envelopes are signed for.
pub open spec fn message_context() -> Seq<u8> {
    encode_utf8("iroh-mq/message/v1"@)
}

/// What a publisher signs of a message, as a value.
#[verifier::ext_equal]
pub struct EnvelopeView {
    pub id: MessageIdView,
    pub created: u64,
    pub expires: u64,
    pub format: Seq<char>,
    pub len: u64,
    pub digest: Seq<u8>,
    pub mode: DeliveryMode,
}

/// What a publisher signs of a message: its identity, its life, and what its payload is.
#[derive(Debug)]
pub struct Envelope {
    pub id: MessageId,
    pub created: u64,
    pub expires: u64,
    pub format: String,
    pub len: usize,
    pub digest: [u8; 32],
    pub mode: DeliveryMode,
}

impl View for Envelope {
    type V = EnvelopeView;

    open spec fn view(&self) -> EnvelopeView {
        EnvelopeView {
            id: self.id@,
            created: self.created,
            expires: self.expires,
            format: self.format@,
            len: self.len as u64,
            digest: self.digest@,
            mode: self.mode,
        }
    }
}

impl Clone for Envelope {
    fn clone(&self) -> (e: Self)
        ensures
            e@ == self@,
    {
        Envelope {
            id: self.id.clone(),
            created: self.created,
            expires: self.expires,
            format: self.format.clone(),
            len: self.len,
            digest: self.digest,
            mode: self.mode,
        }
    }
}

/// An envelope in bytes.
pub open spec fn envelope_bytes(e: EnvelopeView) -> Seq<u8> {
    array_head(12) + (uint_item(1) + (bytes_item(e.id.realm_id) + (bytes_item(
        e.id.publisher_endpoint_id,
    ) + (bytes_item(e.id.publisher_epoch) + (text_item(e.id.topic) + (uint_item(e.id.sequence) + (
    uint_item(e.created) + (uint_item(e.expires) + (text_item(e.format) + (uint_item(e.len) + (
    bytes_item(e.digest) + uint_item(mode_number(e.mode)))))))))))))
}

/// The envelope that `b` holds, if it is one of `peer`'s.
pub open spec fn envelope_of(b: Seq<u8>, peer: Seq<u8>) -> Result<EnvelopeView, Error> {
    match take_array(b, 12) { Err(e) => Err(e), Ok(s) =>
    match take_version(s, 1) { Err(e) => Err(e), Ok(s) =>
    match take_fixed(s, 16) { Err(e) => Err(e), Ok((realm_id, s)) =>
    match take_endpoint(s) { Err(e) => Err(e), Ok((publisher_endpoint_id, s)) =>
    match take_fixed(s, 16) { Err(e) => Err(e), Ok((publisher_epoch, s)) =>
    match take_topic(s) { Err(e) => Err(e), Ok((topic, s)) =>
    match take_u(s) { Err(e) => Err(e), Ok((sequence, s)) =>
    match take_u(s) { Err(e) => Err(e), Ok((created, s)) =>
    match take_u(s) { Err(e) => Err(e), Ok((expires, s)) =>
    match take_text(s, MAX_FORMAT as nat) { Err(e) => Err(e), Ok((format, s)) =>
    match take_size(s) { Err(e) => Err(e), Ok((len, s)) =>
    match take_fixed(s, 32) { Err(e) => Err(e), Ok((digest, s)) =>
    match take_mode(s) { Err(e) => Err(e), Ok((mode, s)) =>
    match take_end(s) { Err(e) => Err(e), Ok(()) => {
        let id = MessageIdView {
            realm_id, publisher_endpoint_id, publisher_epoch, topic, sequence,
        };
        let e = EnvelopeView { id, created, expires, format, len, digest, mode };
        if publisher_endpoint_id != peer || created >= expires {
            Err(Error::Unauthorized)
        } else {
            match canonical_check(b, envelope_bytes(e)) {
                Err(e) => Err(e),
                Ok(()) => Ok(e),
            }
        }
    } } } } } } } } } } } } } } }
}

/// The envelope that a signed container holds, if `peer` signed it as its publisher.
pub open spec fn signed_envelope_of(b: Seq<u8>, peer: Seq<u8>) -> Result<EnvelopeView, Error> {
    match verified_payload(b, peer, message_context(), MAX_ENVELOPE as nat) {
        Err(e) => Err(e),
        Ok(payload) => envelope_of(payload, peer),
    }
}

/// Whether a signed envelope is taken for what it says from its publisher, if its life is not empty,
/// and from no one else, and whether nothing is taken from anyone that stops short of its end.
pub open spec fn taken_only_as(b: Seq<u8>, e: EnvelopeView) -> bool {
    &&& signed_envelope_of(b, e.id.publisher_endpoint_id) == if e.created < e.expires {
        Ok::<EnvelopeView, Error>(e)
    } else {
        Err::<EnvelopeView, Error>(Error::Unauthorized)
    }
    &&& forall|other: Seq<u8>|
        other != e.id.publisher_endpoint_id ==> #[trigger] signed_envelope_of(b, other) is Err
    &&& forall|other: Seq<u8>, n: int|
        0 <= n < b.len() ==> #[trigger] signed_envelope_of(b.take(n), other) is Err
}

/// Whether a payload is the one that an envelope describes.
pub open spec fn describes(e: EnvelopeView, payload: Seq<u8>) -> bool {
    e.len == payload.len() && e.digest == sha256(payload)
}

/// An envelope whose fields have the lengths and forms that their types give them, with a format
/// name that is not too long.
pub open spec fn envelope_written(e: EnvelopeView) -> bool {
    &&& e.id.realm_id.len() == 16
    &&& e.id.publisher_endpoint_id.len() == 32 && is_public_key(e.id.publisher_endpoint_id)
    &&& e.id.publisher_epoch.len() == 16
    &&& valid_topic(e.id.topic)
    &&& encode_utf8(e.format).len() <= MAX_FORMAT
    &&& e.len <= usize::MAX
    &&& e.digest.len() == 32
}

/// A peer reads the envelope that its publisher wrote, if its life is not empty. No one takes it for
/// another's.
pub proof fn law_envelope_round_trip(e: EnvelopeView, peer: Seq<u8>)
    requires
        envelope_written(e),
    ensures
        envelope_of(envelope_bytes(e), peer) == if e.id.publisher_endpoint_id == peer && e.created
            < e.expires {
            Ok::<EnvelopeView, Error>(e)
        } else {
            Err::<EnvelopeView, Error>(Error::Unauthorized)
        },
{
    let s12 = uint_item(mode_number(e.mode));
    let s11 = bytes_item(e.digest) + s12;
    let s10 = uint_item(e.len) + s11;
    let s9 = text_item(e.format) + s10;
    let s8 = uint_item(e.expires) + s9;
    let s7 = uint_item(e.created) + s8;
    let s6 = uint_item(e.id.sequence) + s7;
    let s5 = text_item(e.id.topic) + s6;
    let s4 = bytes_item(e.id.publisher_epoch) + s5;
    let s3 = bytes_item(e.id.publisher_endpoint_id) + s4;
    let s2 = bytes_item(e.id.realm_id) + s3;
    lemma_take_array(12, 12, uint_item(1) + s2);
    lemma_take_version(1, s2);
    lemma_take_fixed(e.id.realm_id, 16, s3);
    lemma_take_endpoint(e.id.publisher_endpoint_id, s4);
    lemma_take_fixed(e.id.publisher_epoch, 16, s5);
    lemma_take_topic(e.id.topic, s6);
    lemma_take_u(e.id.sequence, s7);
    lemma_take_u(e.created, s8);
    lemma_take_u(e.expires, s9);
    lemma_take_text(e.format, MAX_FORMAT as nat, s10);
    lemma_take_size(e.len, s11);
    lemma_take_fixed(e.digest, 32, s12);
    lemma_take_last_u(mode_number(e.mode));
}

/// A signed envelope is never too long to be read.
proof fn lemma_envelope_len(e: EnvelopeView, made: Seq<u8>)
    requires
        envelope_written(e),
        made.len() == 64,
    ensures
        container(envelope_bytes(e), made).len() <= MAX_ENVELOPE,
{
    reveal(array_head);
    reveal(uint_item);
    reveal(bytes_item);
    reveal(text_item);
    reveal(crate::cbor::empty_map_item);
    let b = envelope_bytes(e);
    assert(b.len() <= 9 * 13 + 16 + 32 + 16 + 256 + 256 + 32) by {
        lemma_head_len(4, 12);
        lemma_head_len(0, 1);
        lemma_head_len(2, 16);
        lemma_head_len(2, 32);
        lemma_head_len(3, encode_utf8(e.id.topic).len() as u64);
        lemma_head_len(0, e.id.sequence);
        lemma_head_len(0, e.created);
        lemma_head_len(0, e.expires);
        lemma_head_len(3, encode_utf8(e.format).len() as u64);
        lemma_head_len(0, e.len);
        lemma_head_len(0, mode_number(e.mode));
    }
    lemma_head_len(4, 4);
    lemma_head_len(2, 3);
    lemma_head_len(5, 0);
    lemma_head_len(2, b.len() as u64);
    lemma_head_len(2, 64);
}

impl Envelope {
    pub fn encode(&self) -> (b: Vec<u8>)
        ensures
            b@ == envelope_bytes(self@),
    {
        let mut w = Writer::new();
        w.array(12);
        w.u(1);
        w.bytes(&self.id.realm_id);
        w.bytes(self.id.publisher_endpoint_id.as_bytes());
        w.bytes(&self.id.publisher_epoch);
        w.text(self.id.topic.as_str());
        w.u(self.id.sequence);
        w.u(self.created);
        w.u(self.expires);
        w.text(self.format.as_str());
        w.u(self.len as u64);
        w.bytes(&self.digest);
        w.u(self.mode.number());
        w.finish()
    }

    /// Signs the envelope. Where the key is the publisher's, every peer takes the signed envelope
    /// from the publisher for what it is, takes it from no one else, and takes no part of it. This
    /// rests on the signature, which fails its own check only where its commitment is the neutral
    /// point.
    pub fn sign(&self, key: &Secret) -> (b: Vec<u8>)
        ensures
            b@ == container(
                envelope_bytes(self@),
                signature(key@, signed_bytes(envelope_bytes(self@), message_context())),
            ),
            self@.id.publisher_endpoint_id == public_key(key@) && encode_utf8(self.format@).len()
                <= MAX_FORMAT && proper_commitment(
                signature(key@, signed_bytes(envelope_bytes(self@), message_context())),
            ) ==> taken_only_as(b@, self@),
    {
        let payload = self.encode();
        let context = "iroh-mq/message/v1".as_bytes();
        let b = sign_cose(payload.as_slice(), key, context);
        proof {
            use_type_invariant(&self.id.topic);
            use_type_invariant(&self.id.publisher_endpoint_id);
            let made = signature(key@, signed_bytes(payload@, message_context()));
            let publisher = self@.id.publisher_endpoint_id;
            if publisher == public_key(key@) && encode_utf8(self.format@).len() <= MAX_FORMAT
                && proper_commitment(made) {
                law_envelope_round_trip(self@, publisher);
                lemma_envelope_len(self@, made);
                assert(verified_payload(b@, publisher, message_context(), MAX_ENVELOPE as nat)
                    == Ok::<Seq<u8>, Error>(payload@));
                assert forall|other: Seq<u8>| other != publisher implies #[trigger]
                    signed_envelope_of(b@, other) is Err by {
                    law_envelope_round_trip(self@, other);
                }
                assert forall|other: Seq<u8>, n: int| 0 <= n < b@.len() implies #[trigger]
                    signed_envelope_of(b@.take(n), other) is Err by {
                    lemma_container_prefix(b@, n, MAX_ENVELOPE as nat);
                }
            }
        }
        b
    }

    /// Reads a signed envelope that `peer` published.
    pub fn verify(bytes: &[u8], peer: EndpointId) -> (r: Result<Envelope, Error>)
        ensures
            match signed_envelope_of(bytes@, peer@) {
                Ok(e) => r is Ok && r->Ok_0@ == e,
                Err(e) => r is Err && r->Err_0 == e,
            },
    {
        let context = "iroh-mq/message/v1".as_bytes();
        let b = verify_cose(bytes, &peer, context, MAX_ENVELOPE)?;
        let mut r = Reader::new(b);
        r.array(12)?;
        read_version(&mut r, 1)?;
        let realm_id: Id = r.fixed()?;
        let publisher_endpoint_id = read_endpoint(&mut r)?;
        let publisher_epoch: Id = r.fixed()?;
        let topic = read_topic(&mut r)?;
        let sequence: u64 = r.u()?;
        let created: u64 = r.u()?;
        let expires: u64 = r.u()?;
        let format = r.text(MAX_FORMAT)?.to_owned();
        let len: usize = read_size(&mut r)?;
        let digest: [u8; 32] = r.fixed()?;
        let mode = read_mode(&mut r)?;
        r.end()?;
        let e = Envelope {
            id: MessageId { realm_id, publisher_endpoint_id, publisher_epoch, topic, sequence },
            created,
            expires,
            format,
            len,
            digest,
            mode,
        };
        if !publisher_endpoint_id.same(&peer) || created >= expires {
            return Err(Error::Unauthorized);
        }
        canonical(b, e.encode().as_slice())?;
        Ok(e)
    }

    /// Whether `payload` is the one that this envelope describes.
    pub fn payload_matches(&self, payload: &[u8]) -> (r: bool)
        ensures
            r == describes(self@, payload@),
    {
        self.len == payload.len() && same_bytes(&self.digest, &digest(payload))
    }
}

/// An envelope that is taken names the peer that sent it as its publisher, and is the one way to
/// write what it says.
pub proof fn law_envelope_binds_publisher(b: Seq<u8>, peer: Seq<u8>)
    ensures
        signed_envelope_of(b, peer) matches Ok(e) ==> {
            &&& e.id.publisher_endpoint_id == peer
            &&& e.created < e.expires
            &&& verified_payload(b, peer, message_context(), MAX_ENVELOPE as nat) == Ok::<
                Seq<u8>,
                Error,
            >(envelope_bytes(e))
        },
{
}

/// An envelope that is taken from its publisher is taken from no one else, and no part of it that
/// stops short of its end is taken from anyone.
pub proof fn law_envelope_is_whole_and_its_publishers(
    b: Seq<u8>,
    peer: Seq<u8>,
    other: Seq<u8>,
    n: int,
)
    requires
        signed_envelope_of(b, peer) is Ok,
        0 <= n < b.len(),
    ensures
        other != peer ==> signed_envelope_of(b, other) is Err,
        signed_envelope_of(b.take(n), other) is Err,
{
    lemma_container_prefix(b, n, MAX_ENVELOPE as nat);
}

} // verus!
