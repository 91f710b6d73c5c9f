use rtn_mq::crypto::{digest, Secret};
use rtn_mq::message::Envelope;
use rtn_mq::{DeliveryMode, Error, Identity, MessageId, Topic};

#[test]
fn exact_topic_validation() {
    for bad in [
        "", "/jobs", "jobs/", "jobs//a", "jobs/*", "jobs/#", "jobs x", "ümlaut", "jobs\n",
    ] {
        assert_eq!(Topic::new(bad), Err(Error::InvalidTopic));
    }
    assert!(Topic::new(&"a".repeat(257)).is_err());
    assert_ne!(Topic::new("Jobs").unwrap(), Topic::new("jobs").unwrap());
}

#[test]
fn longest_topic_is_accepted() {
    let name = "a".repeat(256);
    assert_eq!(Topic::new(&name).unwrap().as_str(), name);
    assert_eq!(Topic::new("a/b-c_d.e/9").unwrap().as_str(), "a/b-c_d.e/9");
}

#[test]
fn signed_envelope_binds_identity_metadata_and_payload() {
    let key = Identity::generate();
    let e = Envelope {
        id: MessageId {
            realm_id: [1; 16],
            publisher_endpoint_id: key.endpoint_id(),
            publisher_epoch: [2; 16],
            topic: Topic::new("jobs").unwrap(),
            sequence: 1,
        },
        created: 100,
        expires: 200,
        format: "opaque".into(),
        len: 3,
        digest: digest(b"abc"),
        mode: DeliveryMode::Acknowledged,
    };
    let signed = e.sign(key.secret());
    let decoded = Envelope::verify(&signed, key.endpoint_id()).unwrap();
    assert!(decoded.payload_matches(b"abc"));
    assert!(!decoded.payload_matches(b"abd"));
    assert!(Envelope::verify(&signed, Identity::generate().endpoint_id()).is_err());
    for n in 0..signed.len() {
        assert!(Envelope::verify(&signed[..n], key.endpoint_id()).is_err());
    }
    let mut bad = signed.to_vec();
    let index = bad.len() - 5;
    bad[index] ^= 1;
    assert!(Envelope::verify(&bad, key.endpoint_id()).is_err());
}

#[test]
fn envelope_is_read_as_it_was_signed() {
    let key = Secret::from_bytes(&[2; 32]);
    let e = Envelope {
        id: MessageId {
            realm_id: [3; 16],
            publisher_endpoint_id: key.public(),
            publisher_epoch: [5; 16],
            topic: Topic::new("jobs/a").unwrap(),
            sequence: 7,
        },
        created: 100,
        expires: 160,
        format: "cbor".into(),
        len: 3,
        digest: digest(b"abc"),
        mode: DeliveryMode::BestEffort,
    };
    let d = Envelope::verify(&e.sign(&key), key.public()).unwrap();
    assert_eq!(d.id, e.id);
    assert_eq!((d.created, d.expires, d.len), (100, 160, 3));
    assert_eq!(d.format, "cbor");
    assert_eq!(d.digest, e.digest);
    assert_eq!(d.mode, DeliveryMode::BestEffort);
    assert_eq!(d.encode(), e.encode());
}

#[test]
fn digest_is_sha256() {
    assert_eq!(
        digest(b"abc"),
        [
            0xba, 0x78, 0x16, 0xbf, 0x8f, 0x01, 0xcf, 0xea, 0x41, 0x41, 0x40, 0xde, 0x5d, 0xae,
            0x22, 0x23, 0xb0, 0x03, 0x61, 0xa3, 0x96, 0x17, 0x7a, 0x9c, 0xb4, 0x10, 0xff, 0x61,
            0xf2, 0x00, 0x15, 0xad
        ]
    );
}

#[test]
fn envelope_without_a_life_is_refused() {
    let key = Identity::generate();
    let e = Envelope {
        id: MessageId {
            realm_id: [1; 16],
            publisher_endpoint_id: key.endpoint_id(),
            publisher_epoch: [2; 16],
            topic: Topic::new("jobs").unwrap(),
            sequence: 1,
        },
        created: 200,
        expires: 200,
        format: "opaque".into(),
        len: 0,
        digest: digest(b""),
        mode: DeliveryMode::Acknowledged,
    };
    assert_eq!(
        Envelope::verify(&e.sign(key.secret()), key.endpoint_id()).err(),
        Some(Error::Unauthorized)
    );
}
