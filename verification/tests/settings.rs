use rtn_mq::crypto::Secret;
use rtn_mq::endpoint::{nack_disposition, readiness, Disposition, Waiting};
use rtn_mq::files::{check_state_size, FileFacts};
use rtn_mq::session::{
    check_kind, check_protocol, check_ready, frame_scratch, review_hello, session_dialer,
    stream_only, write_outcome, DataStream, Protocol, RateLimit, Streams,
};
use rtn_mq::wire::{hello, ready, Header, DATA};
use rtn_mq::{
    Authority, CertificateLimits, Config, DeliveryMode, Duration, EndpointId, Error, Identity,
    MessageId, Metrics, Nack, Permission, PublishOptions, Receipt, RecipientOutcome, RelayMode,
    SubscriptionOptions, Topic,
};

fn authority() -> Authority {
    Authority::from_parts(&[1; 32], [3; 16])
}

#[test]
fn default_configuration_is_sound_and_each_limit_is_checked() {
    assert_eq!(Config::new(authority().trust()).validate(), Ok(()));
    let changes: [fn(&mut Config); 17] = [
        |c| {
            c.relay_only = true;
            c.relay_mode = RelayMode::Disabled
        },
        |c| c.max_payload = 0,
        |c| c.max_payload = 1024 * 1024 + 1,
        |c| c.payload_bytes = c.max_payload + 255,
        |c| c.metadata_bytes = 256 * 1024 - 1,
        |c| c.max_peers = 0,
        |c| c.max_peers = 257,
        |c| c.max_topics = 257,
        |c| c.ingress_slots = 0,
        |c| c.per_peer_messages = 65537,
        |c| c.subscription_messages = 0,
        |c| c.per_peer_bytes = c.max_payload + 16395,
        |c| c.subscription_bytes = c.max_payload + 16395,
        |c| c.delivery_window = Duration::from_millis(999),
        |c| c.retry_interval = Duration::from_secs(0),
        |c| c.handshake_timeout = Duration::from_secs(0),
        |c| c.trust.clock_skew_secs = 301,
    ];
    for change in changes {
        let mut c = Config::new(authority().trust());
        change(&mut c);
        assert_eq!(
            c.validate(),
            Err(Error::Config("invalid endpoint limits"))
        );
    }
    let mut exact = Config::new(authority().trust());
    exact.subscription_bytes = exact.max_payload + 16396;
    exact.delivery_window = Duration::from_secs(1);
    assert_eq!(exact.validate(), Ok(()));
}

#[test]
fn options_and_metrics_start_as_documented() {
    assert_eq!(
        SubscriptionOptions::default(),
        SubscriptionOptions::acknowledged()
    );
    assert_eq!(
        SubscriptionOptions::best_effort().mode,
        DeliveryMode::BestEffort
    );
    let p = PublishOptions::default();
    assert_eq!(p.mode, DeliveryMode::Acknowledged);
    assert_eq!(p.lifetime, Duration::from_secs(300));
    let m = Metrics::default();
    assert_eq!((m.peers, m.admitted, m.authorization_failures), (0, 0, 0));
}

#[test]
fn a_receipt_is_settled_when_no_outcome_is_open() {
    let peer = Secret::from_bytes(&[2; 32]).public();
    let mut receipt = Receipt {
        message_id: MessageId {
            realm_id: [3; 16],
            publisher_endpoint_id: peer,
            publisher_epoch: [5; 16],
            topic: Topic::new("jobs").unwrap(),
            sequence: 1,
        },
        entries: vec![
            (peer, RecipientOutcome::Processed),
            (peer, RecipientOutcome::Pending),
        ],
    };
    assert!(!receipt.settled());
    assert_eq!(receipt.wait_for_processing(Waiting::On), None);
    for (waiting, error) in [
        (Waiting::TimeUp, Error::Timeout),
        (Waiting::ShutDown, Error::ShuttingDown),
    ] {
        assert_eq!(receipt.wait_for_processing(waiting), Some(Err(error)));
    }
    // Giving up cancels nothing.
    assert_eq!(receipt.entries[1].1, RecipientOutcome::Pending);
    receipt.entries[1].1 = RecipientOutcome::Failed(Error::Timeout);
    assert!(receipt.settled());
    assert_eq!(receipt.outcomes(), receipt.entries);
    for waiting in [Waiting::On, Waiting::TimeUp, Waiting::ShutDown] {
        let outcomes = receipt.entries.clone();
        assert_eq!(receipt.wait_for_processing(waiting), Some(Ok(outcomes)));
    }
    assert!(!RecipientOutcome::Pending.terminal());
    assert!(RecipientOutcome::Cancelled.terminal());
}

#[test]
fn a_delivery_that_is_let_go_unanswered_is_to_be_tried_again() {
    assert_eq!(Disposition::Open.abandoned(), Disposition::Retryable);
    assert_eq!(Disposition::Processed.abandoned(), Disposition::Processed);
    assert_eq!(nack_disposition(Nack::Retryable), Disposition::Retryable);
    assert_eq!(nack_disposition(Nack::Permanent), Disposition::Permanent);
    assert_eq!(readiness(None), None);
    assert_eq!(readiness(Some(&Ok(()))), Some(Ok(())));
}

#[test]
fn errors_describe_themselves() {
    assert_eq!(Error::Unauthorized.message(), "unauthorized");
    assert_eq!(
        Error::Protocol("ALPN").message(),
        "protocol violation: ALPN"
    );
    assert_eq!(
        Error::Config("limits").message(),
        "invalid configuration: limits"
    );
    assert_eq!(Error::Io("disk".to_string()).message(), "I/O: disk");
}

#[test]
fn keys_and_state_are_kept_only_in_private_files() {
    let good = FileFacts {
        file: true,
        directory: false,
        symlink: false,
        links: 1,
        mode: 0o100600,
    };
    assert_eq!(good.validate_key(), Ok(()));
    assert_eq!(good.validate_state(), Ok(()));
    for bad in [
        FileFacts { links: 2, ..good },
        FileFacts {
            mode: 0o100644,
            ..good
        },
        FileFacts {
            symlink: true,
            ..good
        },
        FileFacts {
            file: false,
            ..good
        },
    ] {
        assert!(bad.validate_key().is_err());
        assert_eq!(
            Identity::load(&bad, &[2; 32]).err(),
            Some(Error::Config("key must be a private (0600), unlinked regular file"))
        );
        assert!(bad.validate_state().is_err());
    }
    let dir = FileFacts {
        file: false,
        directory: true,
        mode: 0o40700,
        ..good
    };
    assert_eq!(dir.validate_key_directory(), Ok(()));
    assert_eq!(dir.validate_state_directory(), Ok(()));
    let open = FileFacts {
        mode: 0o40755,
        ..dir
    };
    assert!(open.validate_key_directory().is_err());
    assert!(open.validate_state_directory().is_err());
    assert!(Identity::from_file(&[0; 33]).is_err());
    assert_eq!(
        Identity::load(&good, &[0; 33]).err(),
        Some(Error::Config("key must contain exactly 32 bytes"))
    );
    assert_eq!(Identity::load(&good, &[2; 32]).unwrap().to_bytes(), [2; 32]);
    assert_eq!(
        Identity::from_file(&[2; 32]).unwrap().endpoint_id(),
        Secret::from_bytes(&[2; 32]).public()
    );
    assert_eq!(check_state_size(&[0]), Ok(()));
    assert_eq!(
        check_state_size(&vec![0; 4 * 1024 * 1024 + 1]),
        Err(Error::MessageTooLarge)
    );
}

#[test]
fn protocols_are_told_apart_by_name() {
    for p in [Protocol::Messaging, Protocol::Join, Protocol::Enrollment] {
        assert_eq!(Protocol::of(p.name().as_bytes()), p);
    }
    assert_eq!(Protocol::of(b"http/1.1"), Protocol::Other);
    assert_eq!(check_protocol(b"iroh-mq/1"), Ok(()));
    assert_eq!(
        check_protocol(b"iroh-mq/join/2"),
        Err(Error::Protocol("ALPN"))
    );
}

#[test]
fn a_stolen_certificate_does_not_pass_the_handshake() {
    let owner = Identity::generate();
    let thief = Identity::generate();
    let cert = authority()
        .issue(
            owner.endpoint_id(),
            vec![Permission::both("jobs").unwrap()],
            100,
            200,
            CertificateLimits::default(),
        )
        .unwrap();
    let b = hello(cert.as_bytes(), [6; 16], 1024, 8, 300);
    let trust = authority().trust();
    let greeting = review_hello(&trust, &b, owner.endpoint_id(), Some(150)).unwrap();
    assert_eq!(greeting.cert.id(), cert.id());
    assert_eq!(greeting.hello.nonce, [6; 16]);
    assert_eq!(
        review_hello(&trust, &b, thief.endpoint_id(), Some(150)).err(),
        Some(Error::Unauthorized)
    );
    assert_eq!(
        review_hello(&trust, &b, owner.endpoint_id(), None).err(),
        Some(Error::Clock)
    );
}

#[test]
fn a_session_is_the_same_from_both_ends() {
    let a: EndpointId = Secret::from_bytes(&[1; 32]).public();
    let b: EndpointId = Secret::from_bytes(&[2; 32]).public();
    assert_eq!(
        session_dialer(true, a, [1; 16], b, [2; 16]),
        session_dialer(false, b, [2; 16], a, [1; 16])
    );
    assert_eq!(
        check_ready(&ready([2; 16], [1; 16]), [1; 16], [2; 16]),
        Ok(())
    );
    assert_eq!(
        check_ready(&ready([1; 16], [2; 16]), [1; 16], [2; 16]),
        Err(Error::Protocol("READY binding"))
    );
}

#[test]
fn frames_are_limited_in_order_and_number() {
    let header = |kind, metadata, payload| Header {
        kind,
        metadata,
        payload,
    };
    assert_eq!(check_kind(&header(DATA, 1, 1), DATA), Ok(()));
    assert_eq!(
        check_kind(&header(1, 1, 0), DATA),
        Err(Error::Protocol("handshake frame order"))
    );
    assert!(DataStream::check_frame(&header(DATA, 64, 3)).is_ok());
    assert!(DataStream::check_frame(&header(1, 64, 0)).is_err());
    assert!(frame_scratch(&header(DATA, 64, 3)) >= 64);
    let mut rate = RateLimit::new(0);
    for _ in 0..8192 {
        assert_eq!(rate.count(1), Ok(()));
    }
    assert_eq!(
        rate.count(999_999_999),
        Err(Error::Protocol("control rate limit"))
    );
    assert_eq!(rate.count(1_000_000_000), Ok(()));
    let mut streams = Streams::new();
    assert_eq!(streams.open(2), Some(1));
    assert_eq!(streams.open(2), Some(2));
    assert_eq!(streams.open(2), None);
    streams.close();
    assert_eq!(streams.open(2), Some(3));
}

#[test]
fn a_stream_stays_with_its_subscription() {
    let topic = || Topic::new("jobs").unwrap();
    let mut s = DataStream::new();
    assert_eq!(s.bind([1; 16], topic()), Ok(()));
    assert_eq!(s.bind([1; 16], topic()), Ok(()));
    assert!(s.bind([2; 16], topic()).is_err());
    assert!(s.bind([1; 16], Topic::new("logs").unwrap()).is_err());
    assert!(stream_only(&Error::SubscriptionClosed));
    assert!(!stream_only(&Error::Clock));
    assert_eq!(write_outcome(Ok(()), true), Ok(()));
    assert_eq!(
        write_outcome(Err(Error::Timeout), true),
        Err(Error::SubscriptionClosed)
    );
    assert_eq!(
        write_outcome(Err(Error::Timeout), false),
        Err(Error::Timeout)
    );
}
