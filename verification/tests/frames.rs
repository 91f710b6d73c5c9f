use rtn_mq::auth::MAX_CERT;
use rtn_mq::cose::{sign_cose, verify_cose};
use rtn_mq::crypto::{digest, Secret};
use rtn_mq::message::Envelope;
use rtn_mq::wire::{
    data, frame_prefix, hello, parse_data, parse_hello, ready, Control, Header, DATA,
};
use rtn_mq::{
    Authority, Certificate, CertificateLimits, DeliveryMode, Error, MessageId, Permission, Topic,
    Trust,
};

#[test]
fn validates_lengths_types_flags_and_session_before_body_allocation() {
    let valid = Header {
        kind: DATA,
        metadata: 64,
        payload: 100,
    }
    .encode()
    .unwrap();
    assert!(Header::decode(valid, 99).is_err());
    for index in [5, 6, 7] {
        let mut bad = valid;
        bad[index] = 1;
        assert!(Header::decode(bad, 100).is_err());
    }
    let mut bad = valid;
    bad[8..].copy_from_slice(&1000u32.to_be_bytes());
    assert!(Header::decode(bad, 100).is_err());
    let (kind, b) = Control::Goodbye.encode([1; 16]);
    assert!(Control::decode(kind, &b, [2; 16]).is_err());
    let mut b = b;
    b.push(0);
    assert!(Control::decode(kind, &b, [1; 16]).is_err());
}

#[test]
fn header_is_read_as_it_was_written() {
    let h = Header {
        kind: DATA,
        metadata: 64,
        payload: 100,
    };
    let bytes = h.encode().unwrap();
    assert_eq!(bytes, [0, 0, 0, 164, 7, 0, 0, 0, 0, 0, 0, 64]);
    assert_eq!(Header::decode(bytes, 100).unwrap(), h);
    assert_eq!(frame_prefix(DATA, &[0; 64], &[0; 100]).unwrap(), bytes);
}

#[test]
fn control_records_are_read_as_they_were_written() {
    let topic = || Topic::new("jobs").unwrap();
    let session = [1; 16];
    let sub = [2; 16];
    let records = [
        Control::Subscribe {
            topic: topic(),
            sub,
            mode: DeliveryMode::BestEffort,
        },
        Control::Suback {
            topic: topic(),
            sub,
            code: 2,
        },
        Control::Unsubscribe {
            topic: topic(),
            sub,
        },
        Control::Credit {
            topic: topic(),
            sub,
            bytes: 4096,
        },
        Control::RequestCredit {
            topic: topic(),
            sub,
            bytes: 0,
        },
        Control::Outcome {
            topic: topic(),
            sub,
            epoch: [3; 16],
            sequence: 9,
            code: 1,
        },
        Control::Error(4),
        Control::Goodbye,
    ];
    for record in records {
        let (kind, b) = record.encode(session);
        let again = Control::decode(kind, &b, session).unwrap();
        assert_eq!(format!("{again:?}"), format!("{record:?}"));
        for n in 0..b.len() {
            assert!(Control::decode(kind, &b[..n], session).is_err());
        }
    }
}

fn hex(s: &str) -> Vec<u8> {
    s.as_bytes()
        .chunks_exact(2)
        .map(|b| u8::from_str_radix(std::str::from_utf8(b).unwrap(), 16).unwrap())
        .collect()
}

// Calculated with Python: keys of repeated 1 and 2, realm 3, certificate 4, epoch 5, nonce 6.
const CERTIFICATE: &str = "\
    8443a10127a058778901500303030303030303030303030303030358208a88e3dd7409f195fd52db2d3c\
    ba5d72ca6709bf1d94121bf3748801b40f6f5c500404040404040404040404040404040458208139770e\
    a87d175f56a35466c34c7ecccb8d8a91b4ee37a25df60f5b8fc9b394186418c88182646a6f6273038200\
    0058400d91ceda69aa0049609d73c7c27382c1ee6e7e0a9ea7009128cb8bfd536b5a121292730ff2dd15\
    d8f0b2db191e855478841829fbee282f3ad5445319542eb80b";

const MESSAGE: &str = "\
    8443a10127a0587b8c01500303030303030303030303030303030358208139770ea87d175f56a35466c3\
    4c7ecccb8d8a91b4ee37a25df60f5b8fc9b3945005050505050505050505050505050505646a6f627301\
    186418a0666f7061717565035820ba7816bf8f01cfea414140de5dae2223b00361a396177a9cb410ff61\
    f20015ad0158409c082722edf1b9d82b4c323456e65fe0bbffd0ab53befd5348f36893c53c4da7de6223\
    88191010454841b444c7b5da72c80d71c24fb8f79305f0686a5e24b906";

const HELLO: &str = "\
    860158c18443a10127a058778901500303030303030303030303030303030358208a88e3dd7409f195fd\
    52db2d3cba5d72ca6709bf1d94121bf3748801b40f6f5c50040404040404040404040404040404045820\
    8139770ea87d175f56a35466c34c7ecccb8d8a91b4ee37a25df60f5b8fc9b394186418c88182646a6f62\
    730382000058400d91ceda69aa0049609d73c7c27382c1ee6e7e0a9ea7009128cb8bfd536b5a12129273\
    0ff2dd15d8f0b2db191e855478841829fbee282f3ad5445319542eb80b50060606060606060606060606\
    060606061904000819012c";

const DATA_FRAME: &str = "\
    000000ee07000000000000eb840150070707070707070707070707070707075008080808080808080808\
    08080808080858c58443a10127a0587b8c01500303030303030303030303030303030358208139770ea8\
    7d175f56a35466c34c7ecccb8d8a91b4ee37a25df60f5b8fc9b394500505050505050505050505050505\
    0505646a6f627301186418a0666f7061717565035820ba7816bf8f01cfea414140de5dae2223b00361a3\
    96177a9cb410ff61f20015ad0158409c082722edf1b9d82b4c323456e65fe0bbffd0ab53befd5348f368\
    93c53c4da7de622388191010454841b444c7b5da72c80d71c24fb8f79305f0686a5e24b906616263";

#[test]
fn independently_generated_cose_and_wire_fixtures() {
    let root = Secret::from_bytes(&[1; 32]);
    let subject = Secret::from_bytes(&[2; 32]);
    let cert = hex(CERTIFICATE);
    let certificate = Certificate::from_bytes(&cert).unwrap();
    Trust::new([3; 16], root.public())
        .verify(&certificate, subject.public(), 110)
        .unwrap();
    let cert_payload = verify_cose(
        &cert,
        &root.public(),
        b"iroh-mq/certificate/v1",
        MAX_CERT,
    )
    .unwrap();
    assert_eq!(
        sign_cose(cert_payload, &root, b"iroh-mq/certificate/v1"),
        cert
    );
    let signed = hex(MESSAGE);
    let envelope = Envelope::verify(&signed, subject.public()).unwrap();
    assert!(envelope.payload_matches(b"abc"));
    assert_eq!(envelope.sign(&subject), signed);
    let greeting = hex(HELLO);
    assert_eq!(parse_hello(&greeting).unwrap().cert, cert);
    assert_eq!(hello(&cert, [6; 16], 1024, 8, 300), greeting);
    let frame = hex(DATA_FRAME);
    let header = Header::decode(frame[..12].try_into().unwrap(), 1024).unwrap();
    let (sub, wire_signature) = parse_data(&frame[12..12 + header.metadata], [7; 16]).unwrap();
    assert_eq!(sub, [8; 16]);
    assert_eq!(wire_signature, signed);
    assert_eq!(&frame[12 + header.metadata..], b"abc");
}

#[test]
fn values_are_written_as_the_fixtures_hold_them() {
    let root = Authority::from_parts(&[1; 32], [3; 16]);
    let subject = Secret::from_bytes(&[2; 32]);
    let certificate = root
        .issue_as(
            [4; 16],
            subject.public(),
            vec![Permission::both("jobs").unwrap()],
            100,
            200,
            CertificateLimits::default(),
        )
        .unwrap();
    assert_eq!(certificate.as_bytes(), hex(CERTIFICATE));
    let envelope = Envelope {
        id: MessageId {
            realm_id: [3; 16],
            publisher_endpoint_id: subject.public(),
            publisher_epoch: [5; 16],
            topic: Topic::new("jobs").unwrap(),
            sequence: 1,
        },
        created: 100,
        expires: 160,
        format: "opaque".into(),
        len: 3,
        digest: digest(b"abc"),
        mode: DeliveryMode::Acknowledged,
    };
    assert_eq!(envelope.sign(&subject), hex(MESSAGE));
    let metadata = data([7; 16], [8; 16], &hex(MESSAGE));
    let mut frame = frame_prefix(DATA, &metadata, b"abc").unwrap().to_vec();
    frame.extend_from_slice(&metadata);
    frame.extend_from_slice(b"abc");
    assert_eq!(frame, hex(DATA_FRAME));
}

#[test]
fn hello_outside_the_limits_is_refused() {
    for (payload, topics, window) in [
        (0, 8, 300),
        (1048577, 8, 300),
        (1024, 0, 300),
        (1024, 257, 300),
        (1024, 8, 0),
        (1024, 8, 301),
    ] {
        assert_eq!(
            parse_hello(&hello(&[], [6; 16], payload, topics, window)).err(),
            Some(Error::Protocol("HELLO limits"))
        );
    }
    let h = parse_hello(&hello(&[1, 2], [6; 16], 1048576, 256, 300)).unwrap();
    assert_eq!(h.cert, vec![1, 2]);
    assert_eq!(h.nonce, [6; 16]);
    assert_eq!((h.max_payload, h.max_topics, h.window_secs), (1048576, 256, 300));
}

#[test]
fn frames_of_another_session_are_refused() {
    let b = data([7; 16], [8; 16], b"envelope");
    assert_eq!(parse_data(&b, [7; 16]).unwrap(), ([8; 16], b"envelope".to_vec()));
    assert!(parse_data(&b, [6; 16]).is_err());
    assert_ne!(ready([1; 16], [2; 16]), ready([2; 16], [1; 16]));
}
