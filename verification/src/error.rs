//! The one error type of the library.
use vstd::prelude::*;

verus! {

/// Everything that an operation of this library can report as failed.
#[derive(Debug, PartialEq, Eq)]
pub enum Error {
    Unauthorized,
    CertificateExpired,
    InvalidSignature,
    InvalidTopic,
    NoSubscribers,
    AlreadySubscribed,
    QueueFull,
    MessageTooLarge,
    PeerUnavailable,
    DeliveryExpired,
    Timeout,
    Protocol(&'static str),
    ShuttingDown,
    SubscriptionClosed,
    Config(&'static str),
    Clock,
    Io(String),
}

impl Clone for Error {
    fn clone(&self) -> (e: Self)
        ensures
            e == *self,
    {
        match self {
            Error::Unauthorized => Error::Unauthorized,
            Error::CertificateExpired => Error::CertificateExpired,
            Error::InvalidSignature => Error::InvalidSignature,
            Error::InvalidTopic => Error::InvalidTopic,
            Error::NoSubscribers => Error::NoSubscribers,
            Error::AlreadySubscribed => Error::AlreadySubscribed,
            Error::QueueFull => Error::QueueFull,
            Error::MessageTooLarge => Error::MessageTooLarge,
            Error::PeerUnavailable => Error::PeerUnavailable,
            Error::DeliveryExpired => Error::DeliveryExpired,
            Error::Timeout => Error::Timeout,
            Error::Protocol(what) => Error::Protocol(*what),
            Error::ShuttingDown => Error::ShuttingDown,
            Error::SubscriptionClosed => Error::SubscriptionClosed,
            Error::Config(what) => Error::Config(*what),
            Error::Clock => Error::Clock,
            Error::Io(what) => Error::Io(what.clone()),
        }
    }
}

/// The sentence that describes `e` to a person.
pub open spec fn error_text(e: Error) -> Seq<char> {
    match e {
        Error::Unauthorized => "unauthorized"@,
        Error::CertificateExpired => "certificate expired or not yet valid"@,
        Error::InvalidSignature => "invalid signature"@,
        Error::InvalidTopic => "invalid topic"@,
        Error::NoSubscribers => "no eligible subscribers"@,
        Error::AlreadySubscribed => "already subscribed"@,
        Error::QueueFull => "queue or memory budget exhausted"@,
        Error::MessageTooLarge => "message too large"@,
        Error::PeerUnavailable => "peer unavailable"@,
        Error::DeliveryExpired => "delivery expired; remote processing may have occurred"@,
        Error::Timeout => "operation timed out"@,
        Error::Protocol(what) => "protocol violation: "@ + what@,
        Error::ShuttingDown => "shutting down"@,
        Error::SubscriptionClosed => "subscription closed"@,
        Error::Config(what) => "invalid configuration: "@ + what@,
        Error::Clock => "clock anomaly"@,
        Error::Io(what) => "I/O: "@ + what@,
    }
}

impl Error {
    /// The sentence that describes this error to a person.
    pub fn message(&self) -> (text: String)
        ensures
            text@ == error_text(*self),
    {
        match self {
            Error::Unauthorized => "unauthorized".to_owned(),
            Error::CertificateExpired => "certificate expired or not yet valid".to_owned(),
            Error::InvalidSignature => "invalid signature".to_owned(),
            Error::InvalidTopic => "invalid topic".to_owned(),
            Error::NoSubscribers => "no eligible subscribers".to_owned(),
            Error::AlreadySubscribed => "already subscribed".to_owned(),
            Error::QueueFull => "queue or memory budget exhausted".to_owned(),
            Error::MessageTooLarge => "message too large".to_owned(),
            Error::PeerUnavailable => "peer unavailable".to_owned(),
            Error::DeliveryExpired =>
                "delivery expired; remote processing may have occurred".to_owned(),
            Error::Timeout => "operation timed out".to_owned(),
            Error::Protocol(what) => {
                let mut text = "protocol violation: ".to_owned();
                text.append(what);
                text
            },
            Error::ShuttingDown => "shutting down".to_owned(),
            Error::SubscriptionClosed => "subscription closed".to_owned(),
            Error::Config(what) => {
                let mut text = "invalid configuration: ".to_owned();
                text.append(what);
                text
            },
            Error::Clock => "clock anomaly".to_owned(),
            Error::Io(what) => {
                let mut text = "I/O: ".to_owned();
                text.append(what.as_str());
                text
            },
        }
    }
}

} // verus!
