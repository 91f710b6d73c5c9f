//! How an endpoint is set up, and what it tells its application.
use crate::address::SocketAddress;
use crate::auth::{Trust, TrustView};
use crate::crypto::EndpointId;
use crate::error::Error;
use crate::invite::{copy_texts, text_views};
use crate::message::{DeliveryMode, MessageId, Nack};
use crate::time::Duration;
use crate::wire::MAX_METADATA;
use vstd::prelude::*;

verus! {

/// What a payload is charged beside its bytes.
pub const PAYLOAD_OVERHEAD: usize = 256;

/// The bytes of a frame before its body.
pub const FRAME_PREFIX: usize = 12;

/// What a frame takes beside its payload, at most.
pub const FRAME_OVERHEAD: usize = MAX_METADATA + FRAME_PREFIX;

/// What one revoked certificate takes of the memory for metadata.
pub const REVOCATION_METADATA: usize = 96;

/// What a connection takes of the memory for metadata until its session stands.
pub const CONNECTION_METADATA: usize = 131072;

/// What the writer of a subscription takes of the memory for metadata.
pub const WRITER_METADATA: usize = 2048;

/// What a message that is to be published takes of the memory for metadata beside its format.
pub const PUBLISH_METADATA: usize = 512;

/// The largest payload of any endpoint.
pub const MAX_PAYLOAD: usize = 1048576;

// Configuration

/// Which relays an endpoint uses.
#[derive(Debug, PartialEq, Eq)]
pub enum RelayMode {
    Disabled,
    Default,
    Staging,
    /// The relays at these URLs.
    Custom(Vec<String>),
}

/// Whether two ways of using relays are the same.
pub open spec fn same_relays(a: RelayMode, b: RelayMode) -> bool {
    match (a, b) {
        (RelayMode::Disabled, RelayMode::Disabled) => true,
        (RelayMode::Default, RelayMode::Default) => true,
        (RelayMode::Staging, RelayMode::Staging) => true,
        (RelayMode::Custom(a), RelayMode::Custom(b)) => text_views(a@) == text_views(b@),
        _ => false,
    }
}

impl Clone for RelayMode {
    fn clone(&self) -> (m: Self)
        ensures
            same_relays(m, *self),
    {
        match self {
            RelayMode::Disabled => RelayMode::Disabled,
            RelayMode::Default => RelayMode::Default,
            RelayMode::Staging => RelayMode::Staging,
            RelayMode::Custom(urls) => RelayMode::Custom(copy_texts(urls)),
        }
    }
}

/// Limits are ceilings, not eagerly allocated capacity. Transport overhead is additional.
pub struct Config {
    pub trust: Trust,
    pub relay_mode: RelayMode,
    /// Disable direct IP transport, e.g. to require and verify relay operation.
    pub relay_only: bool,
    pub bind_addr: Option<SocketAddress>,
    pub max_payload: usize,
    pub payload_bytes: usize,
    pub metadata_bytes: usize,
    pub max_peers: usize,
    pub max_topics: usize,
    pub ingress_slots: usize,
    pub per_peer_messages: usize,
    pub per_peer_bytes: usize,
    pub subscription_messages: usize,
    pub subscription_bytes: usize,
    pub delivery_window: Duration,
    pub retry_interval: Duration,
    pub handshake_timeout: Duration,
}

/// A configuration, as a value. Spans of time are in nanoseconds.
#[verifier::ext_equal]
pub struct ConfigView {
    pub trust: TrustView,
    pub relays: bool,
    pub relay_only: bool,
    pub max_payload: nat,
    pub payload_bytes: nat,
    pub metadata_bytes: nat,
    pub max_peers: nat,
    pub max_topics: nat,
    pub ingress_slots: nat,
    pub per_peer_messages: nat,
    pub per_peer_bytes: nat,
    pub subscription_messages: nat,
    pub subscription_bytes: nat,
    pub delivery_window: nat,
    pub retry_interval: nat,
    pub handshake_timeout: nat,
}

impl View for Config {
    type V = ConfigView;

    open spec fn view(&self) -> ConfigView {
        ConfigView {
            trust: self.trust@,
            relays: !(self.relay_mode is Disabled),
            relay_only: self.relay_only,
            max_payload: self.max_payload as nat,
            payload_bytes: self.payload_bytes as nat,
            metadata_bytes: self.metadata_bytes as nat,
            max_peers: self.max_peers as nat,
            max_topics: self.max_topics as nat,
            ingress_slots: self.ingress_slots as nat,
            per_peer_messages: self.per_peer_messages as nat,
            per_peer_bytes: self.per_peer_bytes as nat,
            subscription_messages: self.subscription_messages as nat,
            subscription_bytes: self.subscription_bytes as nat,
            delivery_window: self.delivery_window@,
            retry_interval: self.retry_interval@,
            handshake_timeout: self.handshake_timeout@,
        }
    }
}

impl Clone for Config {
    fn clone(&self) -> (c: Self)
        ensures
            c@ == self@,
            same_relays(c.relay_mode, self.relay_mode),
            c.bind_addr == self.bind_addr,
    {
        Config {
            trust: self.trust.clone(),
            relay_mode: self.relay_mode.clone(),
            relay_only: self.relay_only,
            bind_addr: self.bind_addr,
            max_payload: self.max_payload,
            payload_bytes: self.payload_bytes,
            metadata_bytes: self.metadata_bytes,
            max_peers: self.max_peers,
            max_topics: self.max_topics,
            ingress_slots: self.ingress_slots,
            per_peer_messages: self.per_peer_messages,
            per_peer_bytes: self.per_peer_bytes,
            subscription_messages: self.subscription_messages,
            subscription_bytes: self.subscription_bytes,
            delivery_window: self.delivery_window,
            retry_interval: self.retry_interval,
            handshake_timeout: self.handshake_timeout,
        }
    }
}

/// Nanoseconds in `n` seconds.
pub open spec fn seconds(n: nat) -> nat {
    n * 1_000_000_000
}

/// The configuration that an endpoint has unless it is told otherwise.
pub open spec fn default_config(trust: TrustView) -> ConfigView {
    ConfigView {
        trust,
        relays: true,
        relay_only: false,
        max_payload: 1024 * 1024,
        payload_bytes: 128 * 1024 * 1024,
        metadata_bytes: 32 * 1024 * 1024,
        max_peers: 256,
        max_topics: 256,
        ingress_slots: 1024,
        per_peer_messages: 1024,
        per_peer_bytes: 16 * 1024 * 1024,
        subscription_messages: 1024,
        subscription_bytes: 16 * 1024 * 1024,
        delivery_window: seconds(300),
        retry_interval: seconds(30),
        handshake_timeout: seconds(10),
    }
}

/// Whether an endpoint can work within a configuration.
pub open spec fn config_sound(c: ConfigView) -> bool {
    &&& c.relay_only ==> c.relays
    &&& 1 <= c.max_payload <= MAX_PAYLOAD
    &&& c.payload_bytes >= c.max_payload + PAYLOAD_OVERHEAD
    &&& c.metadata_bytes >= 256 * 1024
    &&& 1 <= c.max_peers <= 256
    &&& 1 <= c.max_topics <= 256
    &&& 1 <= c.ingress_slots <= 65536
    &&& 1 <= c.per_peer_messages <= 65536
    &&& 1 <= c.subscription_messages <= 65536
    &&& c.per_peer_bytes >= c.max_payload + FRAME_OVERHEAD
    &&& c.subscription_bytes >= c.max_payload + FRAME_OVERHEAD
    &&& seconds(1) <= c.delivery_window <= seconds(300)
    &&& c.retry_interval > 0
    &&& c.handshake_timeout > 0
    &&& c.trust.clock_skew_secs <= 300
}

impl Config {
    pub fn new(trust: Trust) -> (c: Config)
        ensures
            c@ == default_config(trust@),
            c.relay_mode is Default,
            c.bind_addr is None,
    {
        Config {
            trust,
            relay_mode: RelayMode::Default,
            relay_only: false,
            bind_addr: None,
            max_payload: 1024 * 1024,
            payload_bytes: 128 * 1024 * 1024,
            metadata_bytes: 32 * 1024 * 1024,
            max_peers: 256,
            max_topics: 256,
            ingress_slots: 1024,
            per_peer_messages: 1024,
            per_peer_bytes: 16 * 1024 * 1024,
            subscription_messages: 1024,
            subscription_bytes: 16 * 1024 * 1024,
            delivery_window: Duration::from_secs(300),
            retry_interval: Duration::from_secs(30),
            handshake_timeout: Duration::from_secs(10),
        }
    }

    fn relays_usable(&self) -> (r: bool)
        ensures
            r == (self.relay_only ==> !(self.relay_mode is Disabled)),
    {
        match self.relay_mode {
            RelayMode::Disabled => !self.relay_only,
            _ => true,
        }
    }

    pub fn validate(&self) -> (r: Result<(), Error>)
        ensures
            r == if config_sound(self@) {
                Ok::<(), Error>(())
            } else {
                Err(Error::Config("invalid endpoint limits"))
            },
    {
        if !self.relays_usable() || self.max_payload == 0 || self.max_payload > MAX_PAYLOAD
            || self.payload_bytes < self.max_payload + PAYLOAD_OVERHEAD || self.metadata_bytes
            < 256 * 1024 || self.max_peers == 0 || self.max_peers > 256 || self.max_topics == 0
            || self.max_topics > 256 || self.ingress_slots == 0 || self.ingress_slots > 65536
            || self.per_peer_messages == 0 || self.per_peer_messages > 65536
            || self.subscription_messages == 0 || self.subscription_messages > 65536
            || self.per_peer_bytes < self.max_payload + FRAME_OVERHEAD || self.subscription_bytes
            < self.max_payload + FRAME_OVERHEAD || self.delivery_window.as_secs() == 0
            || self.delivery_window.exceeds(&Duration::from_secs(300))
            || self.retry_interval.is_zero() || self.handshake_timeout.is_zero()
            || self.trust.clock_skew() > 300 {
            return Err(Error::Config("invalid endpoint limits"));
        }
        Ok(())
    }
}

// Options

/// How an application wants to receive the messages of a topic.
#[derive(Clone, Copy, Debug, PartialEq, Eq)]
pub struct SubscriptionOptions {
    pub mode: DeliveryMode,
}

impl SubscriptionOptions {
    pub fn acknowledged() -> (o: SubscriptionOptions)
        ensures
            o.mode == DeliveryMode::Acknowledged,
    {
        SubscriptionOptions { mode: DeliveryMode::Acknowledged }
    }

    pub fn best_effort() -> (o: SubscriptionOptions)
        ensures
            o.mode == DeliveryMode::BestEffort,
    {
        SubscriptionOptions { mode: DeliveryMode::BestEffort }
    }
}

impl Default for SubscriptionOptions {
    fn default() -> (o: SubscriptionOptions)
        ensures
            o.mode == DeliveryMode::Acknowledged,
    {
        SubscriptionOptions::acknowledged()
    }
}

/// How an application wants a message to be delivered.
#[derive(Debug, PartialEq, Eq)]
pub struct PublishOptions {
    pub mode: DeliveryMode,
    pub lifetime: Duration,
    pub format: String,
}

impl Clone for PublishOptions {
    fn clone(&self) -> (o: Self)
        ensures
            o.mode == self.mode,
            o.lifetime == self.lifetime,
            o.format@ == self.format@,
    {
        PublishOptions {
            mode: self.mode,
            lifetime: self.lifetime,
            format: self.format.clone(),
        }
    }
}

impl Default for PublishOptions {
    fn default() -> (o: PublishOptions)
        ensures
            o.mode == DeliveryMode::Acknowledged,
            o.lifetime@ == seconds(300),
            o.format@ == "opaque"@,
    {
        PublishOptions {
            mode: DeliveryMode::Acknowledged,
            lifetime: Duration::from_secs(300),
            format: "opaque".to_owned(),
        }
    }
}

/// What came of a message at one of its recipients.
#[derive(Debug, PartialEq, Eq)]
pub enum RecipientOutcome {
    Pending,
    Sent,
    Processed,
    Rejected(Error),
    Failed(Error),
    PermanentNack,
    Cancelled,
}

impl Clone for RecipientOutcome {
    fn clone(&self) -> (o: Self)
        ensures
            o == *self,
    {
        match self {
            RecipientOutcome::Pending => RecipientOutcome::Pending,
            RecipientOutcome::Sent => RecipientOutcome::Sent,
            RecipientOutcome::Processed => RecipientOutcome::Processed,
            RecipientOutcome::Rejected(e) => RecipientOutcome::Rejected(e.clone()),
            RecipientOutcome::Failed(e) => RecipientOutcome::Failed(e.clone()),
            RecipientOutcome::PermanentNack => RecipientOutcome::PermanentNack,
            RecipientOutcome::Cancelled => RecipientOutcome::Cancelled,
        }
    }
}

impl RecipientOutcome {
    /// Whether nothing more can come of the message at this recipient.
    pub fn terminal(&self) -> (r: bool)
        ensures
            r == !(self is Pending),
    {
        match self {
            RecipientOutcome::Pending => false,
            _ => true,
        }
    }
}

/// What has come of a message at each of its recipients so far.
#[derive(Debug)]
pub struct Receipt {
    pub message_id: MessageId,
    pub entries: Vec<(EndpointId, RecipientOutcome)>,
}

impl Receipt {
    /// What has come of the message at each recipient.
    pub fn outcomes(&self) -> (v: Vec<(EndpointId, RecipientOutcome)>)
        ensures
            v@ == self.entries@,
    {
        let mut v: Vec<(EndpointId, RecipientOutcome)> = Vec::new();
        let mut i: usize = 0;
        while i < self.entries.len()
            invariant
                i <= self.entries.len(),
                v@ == self.entries@.take(i as int),
            decreases self.entries.len() - i,
        {
            let entry = &self.entries[i];
            v.push((entry.0, entry.1.clone()));
            assert(v@ =~= self.entries@.take(i + 1));
            i = i + 1;
        }
        assert(v@ =~= self.entries@);
        v
    }

    /// Whether nothing more can come of the message anywhere: when a wait for processing ends.
    pub fn settled(&self) -> (r: bool)
        ensures
            r == all_terminal(self.entries@),
    {
        let mut i: usize = 0;
        while i < self.entries.len()
            invariant
                i <= self.entries.len(),
                forall|j: int| 0 <= j < i ==> !((#[trigger] self.entries@[j]).1 is Pending),
            decreases self.entries.len() - i,
        {
            if !self.entries[i].1.terminal() {
                assert(self.entries@[i as int].1 is Pending);
                return false;
            }
            i = i + 1;
        }
        true
    }

    /// What comes of waiting until nothing more can come of the message anywhere, as things are now.
    /// `None` says to keep waiting. Nothing is cancelled by giving up.
    pub fn wait_for_processing(&self, waiting: Waiting) -> (r: Option<
        Result<Vec<(EndpointId, RecipientOutcome)>, Error>,
    >)
        ensures
            wait_views(r) == waited(self.entries@, waiting),
    {
        if self.settled() {
            return Some(Ok(self.outcomes()));
        }
        match waiting {
            Waiting::On => None,
            Waiting::TimeUp => Some(Err(Error::Timeout)),
            Waiting::ShutDown => Some(Err(Error::ShuttingDown)),
        }
    }
}

/// How things are with someone who waits: there is time left, time is up, or nothing more will be
/// told.
#[derive(Clone, Copy, Debug, PartialEq, Eq)]
pub enum Waiting {
    On,
    TimeUp,
    ShutDown,
}

/// Whether nothing more can come of a message at any of its recipients.
pub open spec fn all_terminal(entries: Seq<(EndpointId, RecipientOutcome)>) -> bool {
    forall|i: int| 0 <= i < entries.len() ==> !((#[trigger] entries[i]).1 is Pending)
}

/// What comes of waiting for processing, where `entries` is what has come of the message so far.
pub open spec fn waited(entries: Seq<(EndpointId, RecipientOutcome)>, waiting: Waiting) -> Option<
    Result<Seq<(EndpointId, RecipientOutcome)>, Error>,
> {
    if all_terminal(entries) {
        Some(Ok(entries))
    } else {
        match waiting {
            Waiting::On => None,
            Waiting::TimeUp => Some(Err(Error::Timeout)),
            Waiting::ShutDown => Some(Err(Error::ShuttingDown)),
        }
    }
}

/// What came of waiting, as a value.
pub open spec fn wait_views(
    r: Option<Result<Vec<(EndpointId, RecipientOutcome)>, Error>>,
) -> Option<Result<Seq<(EndpointId, RecipientOutcome)>, Error>> {
    match r {
        None => None,
        Some(Ok(v)) => Some(Ok(v@)),
        Some(Err(e)) => Some(Err(e)),
    }
}

/// What comes of a whole wait that looks again and again: the first look that ends it does.
pub open spec fn wait_result(
    looks: Seq<(Seq<(EndpointId, RecipientOutcome)>, Waiting)>,
) -> Option<Result<Seq<(EndpointId, RecipientOutcome)>, Error>>
    decreases looks.len(),
{
    if looks.len() == 0 {
        None
    } else {
        match wait_result(looks.drop_last()) {
            Some(r) => Some(r),
            None => waited(looks.last().0, looks.last().1),
        }
    }
}

/// A wait for processing ends well only with the outcomes as they are, none of which is open any
/// more, and it does so where none was open at its first look, however little time there was. It
/// fails for want of time only where time was up and an outcome still open; one timeout covers the
/// whole wait, and who waits again once no outcome is open gets them.
pub proof fn law_wait_for_processing(
    looks: Seq<(Seq<(EndpointId, RecipientOutcome)>, Waiting)>,
    later: Seq<(EndpointId, RecipientOutcome)>,
    waiting: Waiting,
)
    ensures
        wait_result(looks) matches Some(Ok(v)) ==> all_terminal(v) && exists|i: int|
            0 <= i < looks.len() && (#[trigger] looks[i]).0 == v,
        looks.len() > 0 && all_terminal(looks[0].0) ==> wait_result(looks) == Some(
            Ok::<Seq<(EndpointId, RecipientOutcome)>, Error>(looks[0].0),
        ),
        wait_result(looks) == Some(
            Err::<Seq<(EndpointId, RecipientOutcome)>, Error>(Error::Timeout),
        ) ==> exists|i: int|
            0 <= i < looks.len() && !all_terminal((#[trigger] looks[i]).0) && looks[i].1
                == Waiting::TimeUp,
        forall|i: int|
            0 <= i < looks.len() && (#[trigger] looks[i]).1 != Waiting::On ==> wait_result(
                looks,
            ) is Some,
        all_terminal(later) ==> waited(later, waiting) == Some(
            Ok::<Seq<(EndpointId, RecipientOutcome)>, Error>(later),
        ),
    decreases looks.len(),
{
    if looks.len() > 0 {
        let before = looks.drop_last();
        law_wait_for_processing(before, later, waiting);
        if wait_result(before) is Some {
            if wait_result(before)->0 is Ok {
                let v = wait_result(before)->0->Ok_0;
                let i = choose|i: int| 0 <= i < before.len() && (#[trigger] before[i]).0 == v;
                assert(looks[i].0 == v);
            } else if wait_result(before) == Some(
                Err::<Seq<(EndpointId, RecipientOutcome)>, Error>(Error::Timeout),
            ) {
                let i = choose|i: int|
                    0 <= i < before.len() && !all_terminal((#[trigger] before[i]).0) && before[i].1
                        == Waiting::TimeUp;
                assert(looks[i] == before[i]);
            }
        } else {
            let n = looks.len() - 1;
            assert(looks[n] == looks.last());
        }
        assert forall|i: int|
            0 <= i < looks.len() && (#[trigger] looks[i]).1 != Waiting::On implies wait_result(
            looks,
        ) is Some by {
            if i < looks.len() - 1 {
                assert(before[i].1 != Waiting::On);
            }
        }
    }
}

/// What a peer's answer to a subscription means to a caller who waits for it: `None` says to keep
/// waiting, for a first answer or for a peer that is away to come back.
pub fn readiness(answer: Option<&Result<(), Error>>) -> (r: Option<Result<(), Error>>)
    ensures
        match answer {
            None => r is None,
            Some(Ok(_)) => r == Some(Ok::<(), Error>(())),
            Some(Err(e)) => if *e is PeerUnavailable {
                r is None
            } else {
                r == Some(Err::<(), Error>(*e))
            },
        },
{
    match answer {
        None => None,
        Some(result) => match result {
            Ok(()) => Some(Ok(())),
            Err(e) => match e {
                Error::PeerUnavailable => None,
                _ => Some(Err(e.clone())),
            },
        },
    }
}

/// What a handler said of a delivery: nothing yet, that it is processed, that it should be tried
/// again, or that it is refused for good.
#[derive(Clone, Copy, Debug, PartialEq, Eq, Structural)]
pub enum Disposition {
    Open,
    Processed,
    Retryable,
    Permanent,
}

/// What a negative acknowledgement makes of a delivery.
pub fn nack_disposition(reason: Nack) -> (d: Disposition)
    ensures
        d == match reason {
            Nack::Retryable => Disposition::Retryable,
            Nack::Permanent => Disposition::Permanent,
        },
{
    match reason {
        Nack::Retryable => Disposition::Retryable,
        Nack::Permanent => Disposition::Permanent,
    }
}

impl Disposition {
    /// What becomes of a delivery whose handler lets go of it: one on which nothing was said is to
    /// be tried again.
    pub fn abandoned(self) -> (d: Disposition)
        ensures
            d == if self == Disposition::Open {
                Disposition::Retryable
            } else {
                self
            },
    {
        if self == Disposition::Open {
            Disposition::Retryable
        } else {
            self
        }
    }
}

// Shutting down

/// How an endpoint is shut down.
#[derive(Clone, Copy, Debug)]
pub enum ShutdownMode {
    Immediate,
    /// Allow admitted deliveries up to this duration to finish, then close the endpoint.
    Drain { timeout: Duration },
}

/// The last moment, in nanoseconds, that an endpoint can wait until.
pub const LAST_MOMENT: u128 = 18446744073709551615999999999;

impl ShutdownMode {
    /// Until when an endpoint that is shut down at `now` waits for its deliveries. Moments are in
    /// nanoseconds.
    pub fn deadline(&self, now: u128) -> (r: Result<u128, Error>)
        requires
            now <= LAST_MOMENT,
        ensures
            r == match self {
                ShutdownMode::Immediate => Ok::<u128, Error>(now),
                ShutdownMode::Drain { timeout } => if now + timeout@ > LAST_MOMENT {
                    Err(Error::Config("shutdown timeout is too large"))
                } else {
                    Ok((now + timeout@) as u128)
                },
            },
    {
        match self {
            ShutdownMode::Immediate => Ok(now),
            ShutdownMode::Drain { timeout } => {
                let until: u128 = now + timeout.as_nanos();
                if until > LAST_MOMENT {
                    Err(Error::Config("shutdown timeout is too large"))
                } else {
                    Ok(until)
                }
            },
        }
    }
}

// Counting

/// What an endpoint counts.
#[derive(Debug, Clone, Copy, PartialEq, Eq)]
pub struct Metrics {
    pub peers: usize,
    pub pending_deliveries: usize,
    pub deduplication_records: usize,
    pub terminal_receipts: usize,
    pub resident_payload_bytes: usize,
    pub metadata_bytes: usize,
    pub peak_payload_bytes: usize,
    pub peak_metadata_bytes: usize,
    pub outstanding_credits: usize,
    pub unfinished_on_shutdown: usize,
    pub admitted: u64,
    pub rejected: u64,
    pub processed: u64,
    pub retried: u64,
    pub expired: u64,
    pub authorization_failures: u64,
}

/// Nothing counted yet.
pub open spec fn no_metrics() -> Metrics {
    Metrics {
        peers: 0,
        pending_deliveries: 0,
        deduplication_records: 0,
        terminal_receipts: 0,
        resident_payload_bytes: 0,
        metadata_bytes: 0,
        peak_payload_bytes: 0,
        peak_metadata_bytes: 0,
        outstanding_credits: 0,
        unfinished_on_shutdown: 0,
        admitted: 0,
        rejected: 0,
        processed: 0,
        retried: 0,
        expired: 0,
        authorization_failures: 0,
    }
}

impl Default for Metrics {
    fn default() -> (m: Metrics)
        ensures
            m == no_metrics(),
    {
        Metrics {
            peers: 0,
            pending_deliveries: 0,
            deduplication_records: 0,
            terminal_receipts: 0,
            resident_payload_bytes: 0,
            metadata_bytes: 0,
            peak_payload_bytes: 0,
            peak_metadata_bytes: 0,
            outstanding_credits: 0,
            unfinished_on_shutdown: 0,
            admitted: 0,
            rejected: 0,
            processed: 0,
            retried: 0,
            expired: 0,
            authorization_failures: 0,
        }
    }
}

} // verus!
