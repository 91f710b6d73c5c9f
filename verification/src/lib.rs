//! Embedded, authenticated publish/subscribe for groups of endpoints that know each other by key.
pub mod address;
pub mod admission;
pub mod allowances;
pub mod armor;
pub mod auth;
pub mod bootstrap;
pub mod buffer;
pub mod cbor;
pub mod control;
pub mod conventions;
pub mod cose;
pub mod course;
pub mod credits;
pub mod crypto;
pub mod deliveries;
pub mod effects;
pub mod endpoint;
pub mod enrollment;
pub mod error;
pub mod exchange;
pub mod files;
pub mod grants;
pub mod identity;
pub mod incoming;
pub mod invite;
pub mod join;
pub mod laws;
pub mod layout;
pub mod ledger;
pub mod lifecycle;
pub mod message;
pub mod octets;
pub mod operations;
pub mod ordered;
pub mod outgoing;
pub mod owner;
pub mod publishing;
pub mod queue;
pub mod record;
pub mod session;
pub mod time;
pub mod upkeep;
pub mod wire;

pub use address::{EndpointAddr, RelayUrl, SocketAddress};
pub use admission::{generate_host_state, Admission, HostStorage};
pub use auth::{
    Authority, Certificate, CertificateLimits, Permission, RealmId, RevocationSnapshot, Trust,
};
pub use buffer::{BufferPool, PayloadLease};
pub use crypto::EndpointId;
pub use endpoint::{
    Config, Metrics, PublishOptions, Receipt, RecipientOutcome, RelayMode, ShutdownMode,
    SubscriptionOptions,
};
pub use enrollment::{EnrollmentInvite, EnrollmentService};
pub use error::Error;
pub use identity::Identity;
pub use invite::PeerInvite;
pub use join::{JoinCode, JoinOptions};
pub use message::{DeliveryMode, MessageId, Nack, Topic};
pub use owner::Owner;
pub use time::Duration;
