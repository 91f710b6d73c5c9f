use rtn_mq::auth::MAX_CERT;
use rtn_mq::cbor::Writer;
use rtn_mq::cose::parse_cose;
use rtn_mq::{
    Authority, Certificate, CertificateLimits, Error, Identity, Permission, RevocationSnapshot,
    Topic, Trust,
};

fn certificate() -> (Authority, Identity, Certificate) {
    let a = Authority::generate();
    let i = Identity::generate();
    let c = a
        .issue(
            i.endpoint_id(),
            vec![Permission::both("jobs").unwrap()],
            100,
            200,
            CertificateLimits::default(),
        )
        .unwrap();
    (a, i, c)
}

#[test]
fn authorization_rejects_wrong_root_realm_subject_time_and_revocation() {
    let (a, i, c) = certificate();
    let mut t = a.trust();
    t.verify(&c, i.endpoint_id(), 100).unwrap();
    assert_eq!(
        t.verify(&c, i.endpoint_id(), 99),
        Err(Error::CertificateExpired)
    );
    assert_eq!(
        t.verify(&c, i.endpoint_id(), 200),
        Err(Error::CertificateExpired)
    );
    assert_eq!(
        t.verify(&c, Identity::generate().endpoint_id(), 150),
        Err(Error::Unauthorized)
    );
    assert_eq!(
        Trust::new([9; 16], a.public_key()).verify(&c, i.endpoint_id(), 150),
        Err(Error::Unauthorized)
    );
    assert_eq!(
        Authority::generate()
            .trust()
            .verify(&c, i.endpoint_id(), 150),
        Err(Error::InvalidSignature)
    );
    t.deny_certificate(c.id()).unwrap();
    assert_eq!(t.verify(&c, i.endpoint_id(), 150), Err(Error::Unauthorized));
}

#[test]
fn endpoint_cannot_delegate_and_duplicate_permissions_fail() {
    let (a, i, c) = certificate();
    let rogue = Authority::from_identity(i, a.realm_id());
    let subject = Identity::generate();
    let forged = rogue
        .issue(
            subject.endpoint_id(),
            c.permissions().to_vec(),
            100,
            200,
            CertificateLimits::default(),
        )
        .unwrap();
    assert_eq!(
        a.trust().verify(&forged, subject.endpoint_id(), 150),
        Err(Error::InvalidSignature)
    );
    assert!(a
        .issue(
            subject.endpoint_id(),
            vec![
                Permission::publish("jobs").unwrap(),
                Permission::subscribe("jobs").unwrap()
            ],
            100,
            200,
            CertificateLimits::default()
        )
        .is_err());
}

#[test]
fn cose_rejects_tampering_truncation_headers_and_noncanonical_forms() {
    let (a, i, c) = certificate();
    for n in 0..c.as_bytes().len() {
        assert!(
            Certificate::from_bytes(&c.as_bytes()[..n]).is_err(),
            "prefix {n}"
        );
    }
    let mut modified = c.as_bytes().to_vec();
    *modified.last_mut().unwrap() ^= 1;
    assert_eq!(
        a.trust().verify(
            &Certificate::from_bytes(&modified).unwrap(),
            i.endpoint_id(),
            150
        ),
        Err(Error::InvalidSignature)
    );
    let (payload, sig) = parse_cose(c.as_bytes(), MAX_CERT).unwrap();
    let mut w = Writer::new();
    w.array(4);
    w.bytes(&[0xa2, 1, 0x27, 1, 0x27]);
    w.empty_map();
    w.bytes(payload);
    w.bytes(&sig);
    assert!(Certificate::from_bytes(&w.finish()).is_err());
    let mut noncanonical = vec![0x98, 4];
    noncanonical.extend_from_slice(&c.as_bytes()[1..]);
    assert!(Certificate::from_bytes(&noncanonical).is_err());
    let mut trailing = c.as_bytes().to_vec();
    trailing.push(0);
    assert!(Certificate::from_bytes(&trailing).is_err());
}

#[test]
fn signed_revocations_are_monotonic_cumulative_and_fresh() {
    let (a, i, c) = certificate();
    let mut t = a.trust();
    let first = a.revocations(1, 100, 160, vec![c.id()]).unwrap();
    t.apply_revocations(&first, 150).unwrap();
    assert_eq!(t.verify(&c, i.endpoint_id(), 150), Err(Error::Unauthorized));
    assert_eq!(t.apply_revocations(&first, 151), Err(Error::Unauthorized));
    t.apply_revocations(&a.revocations(2, 150, 180, vec![]).unwrap(), 155)
        .unwrap();
    assert_eq!(t.verify(&c, i.endpoint_id(), 156), Err(Error::Unauthorized));
    let other = a
        .issue(
            i.endpoint_id(),
            vec![],
            100,
            200,
            CertificateLimits::default(),
        )
        .unwrap();
    assert_eq!(
        t.verify(&other, i.endpoint_id(), 181),
        Err(Error::Unauthorized)
    );
}

#[test]
fn certificate_states_what_was_asked_for_in_order() {
    let a = Authority::from_parts(&[1; 32], [3; 16]);
    let subject = Identity::from_bytes(&[2; 32]).endpoint_id();
    let limits = CertificateLimits {
        max_payload: 1000,
        max_subscriptions: 2,
    };
    let c = a
        .issue_as(
            [4; 16],
            subject,
            vec![
                Permission::subscribe("logs").unwrap(),
                Permission::publish("jobs").unwrap(),
            ],
            100,
            200,
            limits,
        )
        .unwrap();
    assert_eq!(c.id(), [4; 16]);
    assert_eq!(c.endpoint_id(), subject);
    assert_eq!(c.expires_at(), 200);
    assert_eq!(c.limits(), limits);
    assert_eq!(c.permissions()[0].topic.as_str(), "jobs");
    assert_eq!(c.permissions()[1].topic.as_str(), "logs");
    let jobs = Topic::new("jobs").unwrap();
    let logs = Topic::new("logs").unwrap();
    assert!(c.allows(&jobs, true));
    assert!(!c.allows(&jobs, false));
    assert!(c.allows(&logs, false));
    assert!(!c.allows(&logs, true));
    assert_eq!(c.charge(), c.as_bytes().len() * 4 + 16384);
    assert!(a.trust().verify(&c, subject, 150).is_ok());
    assert_eq!(c.as_bytes(), c.clone().as_bytes());
}

#[test]
fn certificates_that_break_a_rule_are_not_issued() {
    let a = Authority::generate();
    let subject = Identity::generate().endpoint_id();
    let limits = CertificateLimits::default();
    assert_eq!(
        a.issue(subject, vec![], 200, 200, limits).err(),
        Some(Error::Protocol("certificate claims"))
    );
    let nothing = Permission {
        topic: Topic::new("jobs").unwrap(),
        publish: false,
        subscribe: false,
    };
    assert_eq!(
        a.issue(subject, vec![nothing], 100, 200, limits).err(),
        Some(Error::Protocol("permissions must be unique and sorted"))
    );
    let many: Vec<Permission> = (0..200)
        .map(|n| Permission::both(&format!("{n:0>200}")).unwrap())
        .collect();
    assert_eq!(
        a.issue(subject, many, 100, 200, limits).err(),
        Some(Error::MessageTooLarge)
    );
}

#[test]
fn clock_skew_is_allowed_on_both_sides_of_a_certificate() {
    let (a, i, c) = certificate();
    let mut t = a.trust();
    t.clock_skew_secs = 10;
    assert!(t.verify(&c, i.endpoint_id(), 90).is_ok());
    assert!(t.verify(&c, i.endpoint_id(), 209).is_ok());
    assert_eq!(
        t.verify(&c, i.endpoint_id(), 89),
        Err(Error::CertificateExpired)
    );
    assert_eq!(
        t.check(&c, i.endpoint_id(), 210),
        Err(Error::CertificateExpired)
    );
}

#[test]
fn revocation_lists_of_another_realm_or_time_are_refused() {
    let (a, _, c) = certificate();
    let mut t = a.trust();
    assert_eq!(
        a.revocations(0, 100, 200, vec![]).err(),
        Some(Error::Config("revocation snapshot"))
    );
    assert_eq!(
        a.revocations(1, 200, 200, vec![]).err(),
        Some(Error::Config("revocation snapshot"))
    );
    let early = a.revocations(1, 100, 160, vec![c.id()]).unwrap();
    assert_eq!(t.apply_revocations(&early, 99), Err(Error::Unauthorized));
    assert_eq!(t.apply_revocations(&early, 160), Err(Error::Unauthorized));
    let elsewhere = Authority::generate().revocations(1, 100, 160, vec![]).unwrap();
    assert_eq!(
        t.apply_revocations(&elsewhere, 150),
        Err(Error::InvalidSignature)
    );
    assert_eq!(t.revocation_version(), 0);
    assert_eq!(t.revoked_count(), 0);
    let again = RevocationSnapshot::from_bytes(early.as_bytes()).unwrap();
    t.apply_revocations(&again, 150).unwrap();
    assert_eq!(t.revocation_version(), 1);
    assert_eq!(t.revoked_count(), 1);
}

#[test]
fn revoked_identifiers_may_be_repeated_and_stand_in_any_order() {
    let a = Authority::generate();
    let once = a
        .revocations(1, 100, 200, vec![[1; 16], [2; 16], [3; 16]])
        .unwrap();
    let again = a
        .revocations(1, 100, 200, vec![[3; 16], [1; 16], [2; 16], [1; 16], [3; 16]])
        .unwrap();
    assert_eq!(once.as_bytes(), again.as_bytes());
    assert!(RevocationSnapshot::from_bytes(once.as_bytes()).is_ok());
    let other = a.revocations(1, 100, 200, vec![[1; 16], [2; 16]]).unwrap();
    assert_ne!(once.as_bytes(), other.as_bytes());
}

#[test]
fn a_key_file_gives_back_the_key_that_was_written() {
    let i = Identity::generate();
    let read = Identity::from_file(&i.to_bytes()).unwrap();
    assert_eq!(read.endpoint_id(), i.endpoint_id());
    assert!(Identity::from_file(&i.to_bytes()[..31]).is_err());
}
