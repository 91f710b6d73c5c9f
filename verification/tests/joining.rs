use base64::{engine::general_purpose::URL_SAFE_NO_PAD, Engine};
use rtn_mq::admission::{Host, Meter};
use rtn_mq::bootstrap::{
    accepts_request, may_redeem, parse_reply, parse_request, reply, request, Enrollment, REFUSAL,
};
use rtn_mq::buffer::{Budget, Permit};
use rtn_mq::cbor::Writer;
use rtn_mq::crypto::Secret;
use rtn_mq::join::{max_join_lifetime, MAX_JOIN_SECS};
use rtn_mq::ledger::{AskedView, Ledger};
use rtn_mq::wire::{Header, READY};
use rtn_mq::{
    generate_host_state, Admission, Authority, Duration, EndpointAddr, EndpointId, Error,
    HostStorage, Identity, JoinCode, JoinOptions, Permission, RelayUrl, SocketAddress, Trust,
};
use std::sync::{
    atomic::{AtomicBool, Ordering},
    Arc, Mutex,
};

const PREFIX: &str = "rtn-mq://join/";

struct TestStorage {
    bytes: Mutex<Vec<u8>>,
    fail: AtomicBool,
}

impl HostStorage for TestStorage {
    fn load(&self) -> Result<Option<Vec<u8>>, Error> {
        Ok(Some(self.bytes.lock().unwrap().clone()))
    }

    fn save(&self, bytes: &[u8]) -> Result<(), Error> {
        if self.fail.load(Ordering::Relaxed) {
            return Err(Error::Io("test storage failure".into()));
        }
        *self.bytes.lock().unwrap() = bytes.to_vec();
        Ok(())
    }
}

struct Metered(Budget);

impl Meter<Permit> for Metered {
    fn reserve(&mut self, n: usize) -> Result<Permit, Error> {
        self.0.reserve(n)
    }
}

fn v4(ip: [u8; 4], port: u16) -> SocketAddress {
    SocketAddress::V4 { ip, port }
}

fn v6(groups: [u16; 8], port: u16) -> SocketAddress {
    let mut ip = [0; 16];
    for (i, g) in groups.iter().enumerate() {
        ip[2 * i..2 * i + 2].copy_from_slice(&g.to_be_bytes());
    }
    SocketAddress::V6 {
        ip,
        port,
        flow: 0,
        scope: 0,
    }
}

fn routes(a: &EndpointAddr) -> (EndpointId, Vec<SocketAddress>, Vec<String>) {
    (
        a.id(),
        (0..a.ip_count()).map(|i| a.ip_at(i)).collect(),
        (0..a.relay_count())
            .map(|i| a.relay_at(i).as_str().to_string())
            .collect(),
    )
}

fn host() -> EndpointId {
    Secret::from_bytes(&[2; 32]).public()
}

const NOW: u64 = 1_700_000_000;

#[test]
fn application_storage_rolls_back_failed_grants_revocations_and_enrollments() {
    let storage = Arc::new(TestStorage {
        bytes: Mutex::new(generate_host_state()),
        fail: AtomicBool::new(false),
    });
    let now = NOW;
    let mut admission = Admission::<Permit>::with_storage(storage.clone(), now).unwrap();
    let identity = Identity::generate();
    assert_eq!(
        Identity::from_bytes(&identity.to_bytes()).endpoint_id(),
        identity.endpoint_id()
    );
    let address = EndpointAddr::new(identity.endpoint_id()).with_ip_addr(v4([127, 0, 0, 1], 42000));
    let options = JoinOptions::new(vec![Permission::publish("jobs").unwrap()]);
    let mut budget = Ledger::new(Metered(Budget::new(1024 * 1024)));
    storage.fail.store(true, Ordering::Relaxed);
    assert!(admission
        .issue(options.clone(), &address, now, &mut budget, 1)
        .is_err());
    storage.fail.store(false, Ordering::Relaxed);
    // A failed issuance must not consume the only grant slot.
    let code = admission
        .issue(options, &address, now, &mut budget, 1)
        .unwrap();
    let trust = admission.authority().unwrap().trust();
    let peer = Identity::generate().endpoint_id();
    storage.fail.store(true, Ordering::Relaxed);
    assert!(admission.revoke_code(code.id()).is_err());
    for _ in 0..2 {
        // Retrying a failed enrollment must not return an uncommitted cached certificate.
        assert!(matches!(
            admission.enroll(
                peer,
                code.id(),
                code.secret(),
                now,
                now + 3600,
                &trust,
                &mut budget,
                1
            ),
            Err(Error::Io(_))
        ));
    }
    storage.fail.store(false, Ordering::Relaxed);
    let enrolled = admission
        .enroll(
            peer,
            code.id(),
            code.secret(),
            now,
            now + 3600,
            &trust,
            &mut budget,
            1,
        )
        .unwrap();
    let resumed = Admission::<Permit>::with_storage(storage.clone(), now).unwrap();
    assert!(resumed.check(peer, &enrolled.certificate).is_ok());
    storage.fail.store(true, Ordering::Relaxed);
    // Already committed enrollments can still return their durable cached reply.
    assert!(admission
        .enroll(
            peer,
            code.id(),
            code.secret(),
            now,
            now + 3600,
            &trust,
            &mut budget,
            1
        )
        .is_ok());
}

#[test]
fn application_storage_rejects_invalid_state_without_replacing_it() {
    let storage = Arc::new(TestStorage {
        bytes: Mutex::new(vec![0]),
        fail: AtomicBool::new(false),
    });
    assert!(Admission::<Permit>::with_storage(storage.clone(), NOW).is_err());
    assert_eq!(*storage.bytes.lock().unwrap(), vec![0]);
}

#[test]
fn a_realm_is_only_as_good_as_what_storage_answers() {
    let gone = Admission::<Permit>::restore(Err(Error::Unauthorized), None, NOW);
    assert_eq!(gone.err(), Some(Error::Unauthorized));
    let state = generate_host_state();
    let first = Admission::<Permit>::restore(Ok(Some(state.clone())), None, NOW).unwrap();
    let again = Admission::<Permit>::restore(Ok(Some(state)), None, NOW).unwrap();
    assert_eq!(
        first.authority().unwrap().public_key(),
        again.authority().unwrap().public_key()
    );
    assert!(Admission::<Permit>::restore(Ok(None), None, NOW).is_ok());
    let new = || Host::<Permit>::new(Authority::generate(), None);
    assert!(Admission::founded(new(), Ok(())).is_ok());
    let unsaved = Admission::founded(new(), Err(Error::MessageTooLarge));
    assert_eq!(unsaved.err(), Some(Error::MessageTooLarge));
}

#[test]
fn service_credentials_allow_ten_years_but_not_longer() {
    let permissions = vec![Permission::publish("service").unwrap()];
    let mut options = JoinOptions::new(permissions);
    options.lifetime = max_join_lifetime();
    options.certificate_lifetime = max_join_lifetime();
    assert!(options.validate().is_ok());
    options.lifetime = options.lifetime.saturating_add(&Duration::from_secs(1));
    assert!(options.validate().is_err());
}

fn hex(s: &str) -> Vec<u8> {
    s.as_bytes()
        .chunks_exact(2)
        .map(|b| u8::from_str_radix(std::str::from_utf8(b).unwrap(), 16).unwrap())
        .collect()
}

// Calculated with Python: the host of key 2 at 127.0.0.1:42000, with a secret of repeated 9.
const JOIN: &str = "\
    840358208139770ea87d175f56a35466c34c7ecccb8d8a91b4ee37a25df60f5b8fc9b394818200467f00\
    0001a41058200909090909090909090909090909090909090909090909090909090909090909";

#[test]
fn independent_join_code_fixture_matches_the_public_encoding() {
    let bytes = hex(JOIN);
    let encoded = format!("{PREFIX}{}", URL_SAFE_NO_PAD.encode(&bytes));
    let fixture = JoinCode::decode(&encoded).unwrap();
    let expected = sample(EndpointAddr::new(host()).with_ip_addr(v4([127, 0, 0, 1], 42000)));
    assert_eq!(expected.encode().unwrap(), encoded);
    // Independently calculated with Python hashlib and the protocol domain string.
    assert_eq!(
        fixture.id(),
        [207, 105, 51, 178, 72, 186, 118, 171, 10, 128, 224, 144, 54, 130, 35, 245]
    );
}

fn sample(address: EndpointAddr) -> JoinCode {
    JoinCode::from_parts(address, [9; 32])
}

#[test]
fn relay_codes_stay_short_regardless_of_interface_count() {
    let relay = RelayUrl::parse("https://usw1-1.relay.n0.iroh.link./").unwrap();
    let mut address = EndpointAddr::new(host()).with_relay_url(relay);
    for ip in [
        v4([10, 0, 0, 77], 63439),
        v4([67, 183, 197, 72], 63439),
        v4([192, 168, 193, 219], 63439),
        v6([0x2601, 0x602, 0x8c01, 0x2b20, 0, 0, 0, 0xc571], 49431),
        v6([0x2601, 0x602, 0x8c01, 0x2b20, 0xbe, 0x1463, 0xf747, 0x230b], 49431),
        v6([0x2601, 0x602, 0x8c01, 0x2b20, 0x9ce8, 0x9f58, 0xa0c8, 0x31ea], 49431),
    ] {
        address = address.with_ip_addr(ip);
    }
    let code = sample(address);
    let encoded = code.encode().unwrap();
    // Includes URI prefix, pinned host, relay URL, and full 256-bit secret.
    assert_eq!(encoded.len(), 161);
    let decoded = JoinCode::decode(&encoded).unwrap();
    assert_eq!(routes(decoded.address()), routes(&code.address().compact()));
    assert_eq!(decoded.address().ip_count(), 0);
    assert_eq!(decoded.id(), code.id());
}

#[test]
fn direct_codes_preserve_ipv4_ipv6_ports_and_scopes() {
    let code = sample(EndpointAddr::new(host()).with_ip_addr(v4([192, 168, 1, 20], 42000)));
    assert_eq!(code.encode().unwrap().len(), 121);
    assert_eq!(
        routes(JoinCode::decode(&code.encode().unwrap()).unwrap().address()),
        routes(code.address())
    );
    let address = EndpointAddr::new(host())
        .with_ip_addr(v4([192, 168, 1, 20], 42000))
        .with_ip_addr(v6([0x2601, 0x602, 0x8c01, 0x2b20, 0, 0, 0, 0xc571], 49431))
        .with_ip_addr(SocketAddress::V6 {
            ip: [0, 0, 0, 0, 0, 0, 0, 0, 0, 0, 0, 0, 0, 0, 0, 1],
            port: 1234,
            flow: 7,
            scope: 9,
        });
    let code = sample(address);
    assert_eq!(
        routes(JoinCode::decode(&code.encode().unwrap()).unwrap().address()),
        routes(code.address())
    );
}

fn encoded_with_routes(version: u64, routes: &[u8]) -> String {
    let mut w = Writer::new();
    w.array(4);
    w.u(version);
    w.bytes(host().as_bytes());
    let mut bytes = w.finish();
    bytes.extend_from_slice(routes);
    let mut w = Writer::new();
    w.bytes(&[9; 32]);
    bytes.extend_from_slice(&w.finish());
    format!("{PREFIX}{}", URL_SAFE_NO_PAD.encode(bytes))
}

#[test]
fn malformed_routes_and_legacy_codes_are_rejected() {
    // Empty, unknown type, short IPv4, short IPv6, invalid URL, and indefinite list.
    for routes in [
        &[0x80][..],
        &[0x81, 0x82, 3, 0x40],
        &[0x81, 0x82, 0, 0x41, 0],
        &[0x81, 0x82, 1, 0x41, 0],
        &[0x81, 0x82, 2, 0x61, b'?'],
        &[0x9f, 0xff],
    ] {
        assert!(JoinCode::decode(&encoded_with_routes(3, routes)).is_err());
    }
    let route = [0x81, 0x82, 0, 0x46, 127, 0, 0, 1, 0xa4, 0x10];
    assert!(JoinCode::decode(&encoded_with_routes(3, &route)).is_ok());
    for version in [1, 2, 4] {
        assert!(JoinCode::decode(&encoded_with_routes(version, &route)).is_err());
    }
    let mut duplicate = vec![0x82];
    duplicate.extend_from_slice(&route[1..]);
    duplicate.extend_from_slice(&route[1..]);
    assert!(JoinCode::decode(&encoded_with_routes(3, &duplicate)).is_err());
    let mut too_many = vec![0x91];
    for _ in 0..17 {
        too_many.extend_from_slice(&route[1..]);
    }
    assert!(JoinCode::decode(&encoded_with_routes(3, &too_many)).is_err());
}

#[test]
fn codes_are_bounded_and_read_in_one_form_only() {
    let encoded = sample(EndpointAddr::new(host()).with_ip_addr(v4([127, 0, 0, 1], 1)))
        .encode()
        .unwrap();
    assert_eq!(
        JoinCode::decode(&encoded).unwrap().encode().unwrap(),
        encoded
    );
    assert!(JoinCode::decode(encoded.strip_prefix(PREFIX).unwrap()).is_err());
    assert!(JoinCode::decode(&format!("{encoded}=")).is_err());
    assert!(JoinCode::decode(&"x".repeat(32769)).is_err());
    let mut raw = URL_SAFE_NO_PAD
        .decode(encoded.strip_prefix(PREFIX).unwrap())
        .unwrap();
    raw.push(0);
    assert!(JoinCode::decode(&format!("{PREFIX}{}", URL_SAFE_NO_PAD.encode(raw))).is_err());
    assert!(sample(EndpointAddr::new(host())).encode().is_err());
}

#[test]
fn relays_are_read_in_normal_form() {
    let url = RelayUrl::parse("HTTPS://Relay.Example.Com").unwrap();
    assert_eq!(url.as_str(), "https://relay.example.com/");
    assert!(RelayUrl::parse("?").is_none());
}

#[test]
fn options_within_the_limits_are_accepted() {
    let mut options = JoinOptions::new(vec![]);
    assert_eq!(options.validate(), Ok(()));
    options.lifetime = Duration::from_secs(0);
    assert!(options.validate().is_err());
    let mut options = JoinOptions::new(vec![]);
    options.max_uses = 0;
    assert!(options.validate().is_err());
    options.max_uses = 257;
    assert!(options.validate().is_err());
}

// Calculated with Python: the certificate of key 2, the authority of key 1, and an end at 180.
const BOOTSTRAP: &str = "\
    8502500303030303030303030303030303030358208a88e3dd7409f195fd52db2d3cba5d72ca6709bf1d\
    94121bf3748801b40f6f5c18b458c18443a10127a0587789015003030303030303030303030303030303\
    58208a88e3dd7409f195fd52db2d3cba5d72ca6709bf1d94121bf3748801b40f6f5c5004040404040404\
    04040404040404040458208139770ea87d175f56a35466c34c7ecccb8d8a91b4ee37a25df60f5b8fc9b3\
    94186418c88182646a6f62730382000058400d91ceda69aa0049609d73c7c27382c1ee6e7e0a9ea70091\
    28cb8bfd536b5a121292730ff2dd15d8f0b2db191e855478841829fbee282f3ad5445319542eb80b";

fn bootstrap_fixture() -> Vec<u8> {
    hex(BOOTSTRAP)
}

fn root() -> EndpointId {
    Secret::from_bytes(&[1; 32]).public()
}

#[test]
fn authenticated_bootstrap_verifies_certificate_and_expiry() {
    let bytes = bootstrap_fixture();
    let peer = host();
    let enrolled = Enrollment::decode(&bytes, peer, None, 110).unwrap();
    assert_eq!(enrolled.encode(), bytes);
    assert_eq!(enrolled.trust.root(), root());
    assert_eq!(enrolled.trust.realm_id(), [3; 16]);
    assert_eq!(enrolled.expires, 180);
    assert!(matches!(
        Enrollment::decode(&bytes, Identity::generate().endpoint_id(), None, 110),
        Err(Error::Unauthorized)
    ));
    assert!(matches!(
        Enrollment::decode(&bytes, peer, None, 180),
        Err(Error::CertificateExpired)
    ));
    assert!(matches!(
        Enrollment::decode(&bytes, peer, None, 99),
        Err(Error::CertificateExpired)
    ));
    let wrong_root = Enrollment {
        trust: Trust::new([3; 16], Identity::generate().endpoint_id()),
        ..enrolled
    };
    assert!(matches!(
        Enrollment::decode(&wrong_root.encode(), peer, None, 110),
        Err(Error::InvalidSignature)
    ));
    let wrong_realm = Enrollment {
        trust: Trust::new([4; 16], root()),
        ..wrong_root
    };
    assert!(matches!(
        Enrollment::decode(&wrong_realm.encode(), peer, None, 110),
        Err(Error::Unauthorized)
    ));
}

#[test]
fn bootstrap_cannot_replace_existing_trust_or_bypass_revocation() {
    let bytes = bootstrap_fixture();
    let peer = host();
    let enrolled = Enrollment::decode(&bytes, peer, None, 110).unwrap();
    assert!(Enrollment::decode(&bytes, peer, Some(&enrolled.trust), 110).is_ok());
    for expected in [
        Trust::new([4; 16], enrolled.trust.root()),
        Trust::new([3; 16], Identity::generate().endpoint_id()),
    ] {
        assert!(matches!(
            Enrollment::decode(&bytes, peer, Some(&expected), 110),
            Err(Error::Unauthorized)
        ));
    }
    let mut revoked = enrolled.trust;
    revoked.deny_certificate(enrolled.certificate.id()).unwrap();
    assert!(matches!(
        Enrollment::decode(&bytes, peer, Some(&revoked), 110),
        Err(Error::Unauthorized)
    ));
}

#[test]
fn bootstrap_rejects_truncation_legacy_versions_and_noncanonical_cbor() {
    let bytes = bootstrap_fixture();
    let peer = host();
    for end in 0..bytes.len() {
        assert!(Enrollment::decode(&bytes[..end], peer, None, 110).is_err());
    }
    let mut trailing = bytes.clone();
    trailing.push(0);
    assert!(Enrollment::decode(&trailing, peer, None, 110).is_err());
    let mut version = bytes.clone();
    version[1] = 1;
    assert!(Enrollment::decode(&version, peer, None, 110).is_err());
    let mut noncanonical = vec![bytes[0], 0x18, 2];
    noncanonical.extend_from_slice(&bytes[2..]);
    assert!(Enrollment::decode(&noncanonical, peer, None, 110).is_err());
    let mut indefinite = bytes.clone();
    indefinite[0] = 0x9f;
    indefinite.push(0xff);
    assert!(Enrollment::decode(&indefinite, peer, None, 110).is_err());
}

#[test]
fn requests_and_replies_are_read_as_they_were_written() {
    let b = request([1; 16], [2; 32]);
    assert_eq!(parse_request(&b), Ok(([1; 16], [2; 32])));
    assert!(parse_request(&b[1..]).is_err());
    let ok = Enrollment::decode(&bootstrap_fixture(), host(), None, 110);
    let (kind, bytes) = reply(&ok);
    assert_eq!(kind, READY);
    assert_eq!(bytes, bootstrap_fixture());
    assert!(parse_reply(kind, &bytes, host(), None, 110).is_ok());
    let (kind, bytes) = reply(&Err(Error::QueueFull));
    assert_eq!(kind, REFUSAL);
    assert_eq!(
        parse_reply(kind, &bytes, host(), None, 110).err(),
        Some(Error::QueueFull)
    );
    let (kind, bytes) = reply(&Err(Error::Clock));
    assert_eq!(
        parse_reply(kind, &bytes, host(), None, 110).err(),
        Some(Error::Unauthorized)
    );
    let code = sample(EndpointAddr::new(host()));
    assert!(may_redeem(&code, host()).is_ok());
    assert_eq!(may_redeem(&code, root()), Err(Error::Unauthorized));
    assert!(accepts_request(&Header {
        kind: 10,
        metadata: 200,
        payload: 0
    })
    .is_err());
}

fn admission() -> (Admission<Permit>, Ledger<Metered, AskedView>, EndpointAddr) {
    (
        Admission::host(Authority::from_parts(&[1; 32], [3; 16])),
        Ledger::new(Metered(Budget::new(1024 * 1024))),
        EndpointAddr::new(host()).with_ip_addr(v4([127, 0, 0, 1], 42000)),
    )
}

#[test]
fn a_code_admits_as_many_members_as_it_allows() {
    let (mut admission, mut budget, address) = admission();
    let mut options = JoinOptions::new(vec![Permission::publish("jobs").unwrap()]);
    options.max_uses = 2;
    let code = admission
        .issue(options, &address, NOW, &mut budget, 4)
        .unwrap();
    let trust = admission.authority().unwrap().trust();
    let mut enroll = |admission: &mut Admission<Permit>, peer: &Identity, secret: [u8; 32]| {
        admission.enroll(
            peer.endpoint_id(),
            code.id(),
            secret,
            NOW,
            NOW + 3600,
            &trust,
            &mut budget,
            4,
        )
    };
    let peers = [
        Identity::generate(),
        Identity::generate(),
        Identity::generate(),
    ];
    assert_eq!(
        enroll(&mut admission, &peers[0], [0; 32]).err(),
        Some(Error::Unauthorized)
    );
    let first = enroll(&mut admission, &peers[0], code.secret()).unwrap();
    assert!(first
        .certificate
        .allows(&rtn_mq::Topic::new("jobs").unwrap(), true));
    let again = enroll(&mut admission, &peers[0], code.secret()).unwrap();
    assert_eq!(again.certificate.as_bytes(), first.certificate.as_bytes());
    assert!(enroll(&mut admission, &peers[1], code.secret()).is_ok());
    assert!(enroll(&mut admission, &peers[2], code.secret()).is_err());
    assert!(admission
        .check(peers[0].endpoint_id(), &first.certificate)
        .is_ok());
    assert_eq!(
        admission.check(peers[2].endpoint_id(), &first.certificate),
        Err(Error::Unauthorized)
    );
}

#[test]
fn a_revoked_code_admits_nobody_new_but_keeps_its_members() {
    let (mut admission, mut budget, address) = admission();
    let code = admission
        .issue(JoinOptions::new(vec![]), &address, NOW, &mut budget, 1)
        .unwrap();
    assert_eq!(
        admission
            .issue(JoinOptions::new(vec![]), &address, NOW, &mut budget, 1)
            .err(),
        Some(Error::QueueFull)
    );
    let trust = admission.authority().unwrap().trust();
    let peer = Identity::generate().endpoint_id();
    let member = admission
        .enroll(
            peer,
            code.id(),
            code.secret(),
            NOW,
            NOW + 3600,
            &trust,
            &mut budget,
            1,
        )
        .unwrap();
    admission.revoke_code(code.id()).unwrap();
    assert!(admission.check(peer, &member.certificate).is_ok());
    assert!(admission
        .enroll(
            Identity::generate().endpoint_id(),
            code.id(),
            code.secret(),
            NOW,
            NOW + 3600,
            &trust,
            &mut budget,
            2
        )
        .is_err());
    admission.prune(NOW + MAX_JOIN_SECS);
    assert_eq!(
        admission.check(peer, &member.certificate),
        Err(Error::Unauthorized)
    );
}

#[test]
fn a_joined_endpoint_knows_only_its_host() {
    let joined = Admission::<Permit>::Client(host());
    let (hosting, _, _) = admission();
    let other = Identity::generate().endpoint_id();
    assert!(joined.can_dial(host()));
    assert!(!joined.can_dial(other));
    assert!(!hosting.can_dial(other));
    let certificate = Authority::from_parts(&[1; 32], [3; 16])
        .issue(other, vec![], 100, 200, Default::default())
        .unwrap();
    // A valid signature alone makes nobody a member.
    assert_eq!(
        hosting.check(other, &certificate),
        Err(Error::Unauthorized)
    );
    assert_eq!(joined.check(other, &certificate), Err(Error::Unauthorized));
    assert_eq!(joined.check(host(), &certificate), Ok(()));
    assert_eq!(joined.authority().err(), Some(Error::Unauthorized));
}

/// Grants everything, and notes what was asked for.
struct Noted(Vec<usize>);

impl Meter<usize> for Noted {
    fn reserve(&mut self, n: usize) -> Result<usize, Error> {
        self.0.push(n);
        Ok(n)
    }
}

#[test]
fn codes_and_members_are_charged_for_when_they_are_made_and_when_they_are_read_back() {
    let storage = Arc::new(TestStorage {
        bytes: Mutex::new(generate_host_state()),
        fail: AtomicBool::new(false),
    });
    let mut admission = Admission::<usize>::with_storage(storage.clone(), NOW).unwrap();
    let address = EndpointAddr::new(host()).with_ip_addr(v4([127, 0, 0, 1], 42000));
    let mut noted = Ledger::new(Noted(vec![]));
    let options = JoinOptions::new(vec![Permission::publish("jobs").unwrap()]);
    let code = admission
        .issue(options, &address, NOW, &mut noted, 4)
        .unwrap();
    let trust = admission.authority().unwrap().trust();
    let peer = Identity::generate().endpoint_id();
    let mut enroll = |admission: &mut Admission<usize>, secret: [u8; 32], noted: &mut _| {
        admission.enroll(peer, code.id(), secret, NOW, NOW + 3600, &trust, noted, 4)
    };
    assert!(enroll(&mut admission, [0; 32], &mut noted).is_err());
    let made = enroll(&mut admission, code.secret(), &mut noted).unwrap();
    assert!(enroll(&mut admission, code.secret(), &mut noted).is_ok());
    let certificate = made.certificate.as_bytes().len() * 4 + 16384;
    let grant = 1024 + "jobs".len() + 128;
    assert_eq!(noted.into_source().0, vec![grant, 1024, certificate]);
    let mut resumed = Admission::<usize>::with_storage(storage, NOW).unwrap();
    let mut noted = Ledger::new(Noted(vec![]));
    resumed.meter(&mut noted).unwrap();
    // What is accounted for is not charged for again.
    resumed.meter(&mut noted).unwrap();
    assert_eq!(noted.into_source().0, vec![grant, 1024]);
}

/// Memory that is given back when it is dropped.
struct Lent {
    left: Arc<Mutex<Vec<usize>>>,
    n: usize,
}

impl Drop for Lent {
    fn drop(&mut self) {
        let mut out = self.left.lock().unwrap();
        let i = out.iter().position(|n| *n == self.n).unwrap();
        out.remove(i);
    }
}

struct Lending(Arc<Mutex<Vec<usize>>>);

impl Meter<Lent> for Lending {
    fn reserve(&mut self, n: usize) -> Result<Lent, Error> {
        self.0.lock().unwrap().push(n);
        Ok(Lent {
            left: self.0.clone(),
            n,
        })
    }
}

#[test]
fn a_certificate_is_charged_for_as_long_as_any_copy_of_it_is_kept() {
    let out = Arc::new(Mutex::new(vec![]));
    let mut lending = Ledger::new(Lending(out.clone()));
    let mut admission = Admission::<Lent>::host(Authority::generate());
    let address = EndpointAddr::new(host()).with_ip_addr(v4([127, 0, 0, 1], 42000));
    let mut options = JoinOptions::new(vec![Permission::publish("jobs").unwrap()]);
    options.certificate_lifetime = Duration::from_secs(60);
    let code = admission
        .issue(options, &address, NOW, &mut lending, 4)
        .unwrap();
    let trust = admission.authority().unwrap().trust();
    let peer = Identity::generate().endpoint_id();
    let made = admission
        .enroll(peer, code.id(), code.secret(), NOW, NOW + 3600, &trust, &mut lending, 4)
        .unwrap();
    let certificate = made.certificate.as_bytes().len() * 4 + 16384;
    let grant = 1024 + "jobs".len() + 128;
    assert_eq!(*out.lock().unwrap(), vec![grant, 1024, certificate]);
    // The member is gone, but the code still has the certificate that it brought.
    admission.prune(NOW + 60);
    assert!(admission.check(peer, &made.certificate).is_err());
    assert_eq!(*out.lock().unwrap(), vec![grant, certificate]);
    admission.revoke_code(code.id()).unwrap();
    assert_eq!(*out.lock().unwrap(), Vec::<usize>::new());
}

#[test]
fn a_code_is_taken_back_for_good_or_not_at_all() {
    let storage = Arc::new(TestStorage {
        bytes: Mutex::new(generate_host_state()),
        fail: AtomicBool::new(false),
    });
    let mut admission = Admission::<usize>::with_storage(storage.clone(), NOW).unwrap();
    let address = EndpointAddr::new(host()).with_ip_addr(v4([127, 0, 0, 1], 42000));
    let mut noted = Ledger::new(Noted(vec![]));
    let options = JoinOptions::new(vec![Permission::publish("jobs").unwrap()]);
    let before = storage.bytes.lock().unwrap().clone();
    let code = admission
        .issue(options, &address, NOW, &mut noted, 1)
        .unwrap();
    let with_code = storage.bytes.lock().unwrap().clone();
    assert_ne!(before, with_code);
    storage.fail.store(true, Ordering::Relaxed);
    assert_eq!(
        admission.revoke_code(code.id()),
        Err(Error::Io("test storage failure".into()))
    );
    assert_eq!(*storage.bytes.lock().unwrap(), with_code);
    let trust = admission.authority().unwrap().trust();
    let peer = Identity::generate().endpoint_id();
    let secret = code.secret();
    let refused = admission.enroll(peer, code.id(), secret, NOW, NOW + 3600, &trust, &mut noted, 1);
    assert_eq!(refused.err(), Some(Error::Io("test storage failure".into())));
    storage.fail.store(false, Ordering::Relaxed);
    assert_eq!(admission.revoke_code(code.id()), Ok(()));
    assert_eq!(*storage.bytes.lock().unwrap(), before);
    let refused = admission.enroll(peer, code.id(), secret, NOW, NOW + 3600, &trust, &mut noted, 1);
    assert_eq!(refused.err(), Some(Error::Unauthorized));
    // A code that is not there can be taken back too.
    assert_eq!(admission.revoke_code(code.id()), Ok(()));
}
