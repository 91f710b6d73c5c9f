use rtn_mq::admission::Meter;
use rtn_mq::crypto::Secret;
use rtn_mq::enrollment::{
    accepts_redeem, answer_redeem, parse_answer, parse_redeem, review_service, Attempts,
    InvitationTerms, MAX_ENROLLMENT,
};
use rtn_mq::invite::MAX_INVITE;
use rtn_mq::ledger::Ledger;
use rtn_mq::wire::Header;
use rtn_mq::{
    Authority, CertificateLimits, Config, Duration, EndpointId, EnrollmentInvite,
    EnrollmentService, Error, Identity, PeerInvite, Permission, Topic, Trust,
};

const NOW: u64 = 1_700_000_000;

struct Coins(usize);

impl Meter<usize> for Coins {
    fn reserve(&mut self, n: usize) -> Result<usize, Error> {
        if n > self.0 {
            return Err(Error::QueueFull);
        }
        self.0 -= n;
        Ok(n)
    }
}

fn authority() -> Authority {
    Authority::from_parts(&[1; 32], [3; 16])
}

fn own() -> EndpointId {
    Secret::from_bytes(&[2; 32]).public()
}

fn contact() -> PeerInvite {
    PeerInvite {
        realm_id: [3; 16],
        authority: authority().public_key(),
        host: own(),
        ips: vec![
            "ip:127.0.0.1:4433".to_string(),
            "ip:[::1]:4433".to_string(),
        ],
        relays: vec!["relay:https://relay.example.com/".to_string()],
    }
}

fn terms() -> InvitationTerms {
    InvitationTerms {
        permissions: vec![Permission::publish("jobs").unwrap()],
        limits: CertificateLimits::default(),
        valid_for: Duration::from_secs(600),
        lifetime: Duration::from_secs(60),
    }
}

fn invited() -> (EnrollmentService<usize>, EnrollmentInvite) {
    let mut service = EnrollmentService::new();
    let invite = service
        .invite(
            &authority(),
            own(),
            contact(),
            terms(),
            Some(NOW),
            4,
            &mut Ledger::new(Coins(1 << 20)),
        )
        .unwrap();
    (service, invite)
}

#[test]
fn contacts_are_read_as_they_were_written() {
    let text = contact().encode().unwrap();
    let again = PeerInvite::decode(&text).unwrap();
    assert_eq!(again.encode().unwrap(), text);
    assert_eq!(again.realm_id, [3; 16]);
    assert_eq!(again.authority, authority().public_key());
    assert_eq!(again.host, own());
    assert_eq!(again.ips, contact().ips);
    assert_eq!(again.relays, contact().relays);
}

#[test]
fn contacts_that_are_not_in_normal_form_are_refused() {
    let with_ips = |ips: Vec<&str>| PeerInvite {
        ips: ips.into_iter().map(str::to_string).collect(),
        ..contact()
    };
    // Out of order, twice the same, written otherwise than it is printed, and no addresses.
    for ips in [
        vec!["ip:[::1]:4433", "ip:127.0.0.1:4433"],
        vec!["ip:127.0.0.1:4433", "ip:127.0.0.1:4433"],
        vec!["ip:[0:0:0:0:0:0:0:1]:4433"],
        vec!["ip:somewhere"],
        vec!["127.0.0.1:4433"],
    ] {
        let text = with_ips(ips).encode();
        assert!(text.is_err() || PeerInvite::decode(&text.unwrap()).is_err());
    }
    assert!(PeerInvite::decode(&"A".repeat(MAX_INVITE + 1)).is_err());
    assert!(PeerInvite::decode("*").is_err());
}

#[test]
fn invitations_are_read_as_they_were_written() {
    let (_, invite) = invited();
    assert_eq!(invite.expires_at, NOW + 60);
    let text = invite.encode().unwrap();
    let again = EnrollmentInvite::decode(&text).unwrap();
    assert_eq!(again.encode().unwrap(), text);
    assert_eq!(again.request(), invite.request());
    assert!(matches!(
        EnrollmentInvite::decode(&"A".repeat(MAX_ENROLLMENT + 1)),
        Err(Error::MessageTooLarge)
    ));
    assert!(matches!(
        EnrollmentInvite::decode("*"),
        Err(Error::Protocol("enrollment invitation"))
    ));
    assert!(EnrollmentInvite::decode(&text[..text.len() - 2]).is_err());
}

#[test]
fn an_invitation_is_redeemed_only_under_the_configured_root() {
    let (_, invite) = invited();
    assert_eq!(invite.review(&authority().trust(), Some(NOW)), Ok(()));
    assert_eq!(
        invite.review(&Trust::new([4; 16], authority().public_key()), Some(NOW)),
        Err(Error::Unauthorized)
    );
    assert_eq!(
        invite.review(&Trust::new([3; 16], own()), Some(NOW)),
        Err(Error::Unauthorized)
    );
    assert_eq!(
        invite.review(&authority().trust(), Some(NOW + 60)),
        Err(Error::CertificateExpired)
    );
    assert_eq!(
        invite.review(&authority().trust(), None),
        Err(Error::Clock)
    );
}

#[test]
fn an_invitation_brings_one_endpoint_one_certificate() {
    let (mut service, invite) = invited();
    let (id, secret) = parse_redeem(&invite.request()).unwrap();
    let peer = Identity::generate().endpoint_id();
    assert_eq!(
        service
            .redeem(&authority(), peer, &id, &[0; 32], Some(NOW))
            .err(),
        Some(Error::Unauthorized)
    );
    let first = service
        .redeem(&authority(), peer, &id, &secret, Some(NOW))
        .unwrap();
    assert!(first.allows(&Topic::new("jobs").unwrap(), true));
    assert_eq!(first.expires_at(), NOW + 600);
    assert!(authority().trust().verify(&first, peer, NOW).is_ok());
    let again = service
        .redeem(&authority(), peer, &id, &secret, Some(NOW + 1))
        .unwrap();
    assert_eq!(again.as_bytes(), first.as_bytes());
    assert_eq!(
        service
            .redeem(
                &authority(),
                Identity::generate().endpoint_id(),
                &id,
                &secret,
                Some(NOW)
            )
            .err(),
        Some(Error::Unauthorized)
    );
    service.prune(NOW + 60);
    assert_eq!(
        service
            .redeem(&authority(), peer, &id, &secret, Some(NOW))
            .err(),
        Some(Error::Unauthorized)
    );
}

#[test]
fn invitations_beyond_the_limits_are_not_given_out() {
    let mut service = EnrollmentService::new();
    let mut invite = |terms: InvitationTerms, clock, max, coins| {
        service
            .invite(
                &authority(),
                own(),
                contact(),
                terms,
                clock,
                max,
                &mut Ledger::new(Coins(coins)),
            )
            .err()
    };
    assert_eq!(invite(terms(), None, 4, 1 << 20), Some(Error::Clock));
    assert_eq!(
        invite(terms(), Some(NOW), 0, 1 << 20),
        Some(Error::QueueFull)
    );
    assert_eq!(invite(terms(), Some(NOW), 4, 10), Some(Error::QueueFull));
    for long in [0, 86401] {
        let mut t = terms();
        t.lifetime = Duration::from_secs(long);
        assert_eq!(
            invite(t, Some(NOW), 4, 1 << 20),
            Some(Error::Config("invitation limits"))
        );
        let mut t = terms();
        t.valid_for = Duration::from_secs(long);
        assert_eq!(
            invite(t, Some(NOW), 4, 1 << 20),
            Some(Error::Config("invitation limits"))
        );
    }
    assert_eq!(invite(terms(), Some(NOW), 4, 1 << 20), None);
}

#[test]
fn answers_are_read_as_they_were_written() {
    let (mut service, invite) = invited();
    let (id, secret) = parse_redeem(&invite.request()).unwrap();
    let peer = Identity::generate().endpoint_id();
    let outcome = service.redeem(&authority(), peer, &id, &secret, Some(NOW));
    let (kind, bytes) = answer_redeem(&outcome);
    let cert = parse_answer(kind, &bytes, &authority().trust(), peer, Some(NOW)).unwrap();
    assert_eq!(cert.as_bytes(), outcome.unwrap().as_bytes());
    assert!(parse_answer(kind, &bytes, &authority().trust(), own(), Some(NOW)).is_err());
    let (kind, bytes) = answer_redeem(&Err(Error::Unauthorized));
    assert!(parse_answer(kind, &bytes, &authority().trust(), peer, Some(NOW)).is_err());
    assert!(parse_redeem(&invite.request()[1..]).is_err());
    assert!(accepts_redeem(&Header {
        kind: 1,
        metadata: 4000,
        payload: 0
    })
    .is_err());
}

#[test]
fn the_signing_key_is_not_the_transport_key() {
    let config = Config::new(authority().trust());
    assert_eq!(
        review_service(&authority(), &Identity::generate(), &config),
        Ok(())
    );
    assert_eq!(
        review_service(&authority(), &Identity::from_bytes(&[1; 32]), &config),
        Err(Error::Config("enrollment root and transport identity"))
    );
    let mut small = Config::new(authority().trust());
    small.metadata_bytes = 1;
    assert_eq!(
        review_service(&authority(), &Identity::generate(), &small),
        Err(Error::Config("enrollment limits"))
    );
}

#[test]
fn four_connections_come_in_for_each_peer() {
    let mut attempts = Attempts::new();
    let taken = (0..100).filter(|_| attempts.accept(2)).count();
    assert_eq!(taken, 8);
}
