use rtn_mq::allowances::Allowances;
use rtn_mq::buffer::Budget;
use rtn_mq::crypto::digest;
use rtn_mq::deliveries::{DeliveryKey, RecordKey};
use rtn_mq::endpoint::{Disposition, LAST_MOMENT};
use rtn_mq::incoming::Arrival;
use rtn_mq::ledger::Ledger;
use rtn_mq::lifecycle::MemoryUse;
use rtn_mq::message::Envelope;
use rtn_mq::outgoing::Publication;
use rtn_mq::owner::Session;
use rtn_mq::publishing::Receipts;
use rtn_mq::wire::Control;
use rtn_mq::{
    Authority, BufferPool, CertificateLimits, Config, DeliveryMode, Duration, EndpointId, Error,
    Identity, MessageId, Owner, PeerInvite, Permission, PublishOptions, RecipientOutcome,
    ShutdownMode, Topic,
};

const CLOCK: Option<u64> = Some(1000);
const SECOND: u128 = 1_000_000_000;

struct Node {
    owner: Owner<u32>,
    id: EndpointId,
    clock: Option<u64>,
    now: u128,
}

fn jobs() -> Topic {
    Topic::new("jobs").unwrap()
}

fn node(authority: &Authority, permission: Permission, epoch: u8) -> Node {
    node_with(authority, permission, epoch, |_| ())
}

fn node_with(
    authority: &Authority,
    permission: Permission,
    epoch: u8,
    change: impl Fn(&mut Config),
) -> Node {
    let identity = Identity::generate();
    let id = identity.endpoint_id();
    let cert = authority
        .issue(
            id,
            vec![permission],
            100,
            100_000,
            CertificateLimits::default(),
        )
        .unwrap();
    let mut config = Config::new(authority.trust());
    change(&mut config);
    assert_eq!(config.validate(), Ok(()));
    Node {
        owner: Owner::new(config, identity, cert, [epoch; 16], CLOCK, 0),
        id,
        clock: CLOCK,
        now: 0,
    }
}

fn session_with(other: &Node, session: u8, dialer: EndpointId) -> Session<u32> {
    Session {
        cert: other.owner.cert.clone(),
        session: [session; 16],
        dialer,
        nonce: [session; 16],
        max_payload: 1024 * 1024,
        max_topics: 256,
        window_secs: 300,
        held: 1,
    }
}

impl Node {
    fn register(&mut self, other: &Node, session: u8, dialer: EndpointId) -> Result<bool, Error> {
        self.owner.register(
            other.id,
            session_with(other, session, dialer),
            Ok(()),
            self.clock,
            self.now,
        )
    }

    fn wait(&mut self, secs: u64) {
        self.now += secs as u128 * SECOND;
        self.clock = Some(self.clock.unwrap() + secs);
    }

    fn subscribe(&mut self, mode: DeliveryMode) -> Result<(), Error> {
        self.owner
            .subscribe(jobs(), mode, [0xaa; 16], Ok(3), self.clock)
    }

    fn number(&mut self, payload: &[u8], mode: DeliveryMode) -> Result<Publication, Error> {
        self.owner.number(
            jobs(),
            payload,
            mode,
            Duration::from_secs(60),
            "opaque".to_string(),
            self.clock,
        )
    }

    fn publish(&mut self, payload: &[u8], mode: DeliveryMode) -> DeliveryKey {
        let m = self.number(payload, mode).unwrap();
        let outcomes = self.owner.place(&m, vec![(4, 5)], self.now);
        assert_eq!(outcomes.len(), 1);
        assert_eq!(outcomes[0].1, RecipientOutcome::Pending);
        DeliveryKey {
            peer: m.recipients[0].0,
            sub: m.recipients[0].1,
            id: m.envelope.id.clone(),
        }
    }

    fn outcomes(&mut self) -> Vec<(RecipientOutcome, u32)> {
        let ended = self.owner.take_ended();
        (0..ended.len())
            .map(|i| (ended.value_at(i).outcome.clone(), ended.value_at(i).held))
            .collect()
    }

    /// Sees to everything, with memory for a number of frames.
    fn upkeep(&mut self, frames: usize) {
        let mut allowances = Allowances::new();
        allowances.open(&jobs(), frames, 64 * 1024 * 1024);
        self.upkeep_with(
            &mut allowances,
            &mut Budget::new(1024 * 1024),
            &mut BufferPool::new(64 * 1024 * 1024, 1024 * 1024),
        );
    }

    fn upkeep_with(
        &mut self,
        allowances: &mut Allowances,
        metadata: &mut Budget,
        pool: &mut BufferPool,
    ) {
        self.owner
            .maintenance(self.clock, self.now, allowances, metadata, pool, |topic, _| {
                assert_eq!(topic, &jobs());
                70
            });
        self.owner.schedule(self.clock, self.now);
    }
}

fn connect(a: &mut Node, b: &mut Node, session: u8) {
    let dialer = a.id;
    assert_eq!(a.register(b, session, dialer), Ok(true));
    assert_eq!(b.register(a, session, dialer), Ok(true));
    exchange(a, b, session);
}

/// Hands each what the other has to tell it, in bytes, until neither has anything to tell.
fn exchange(a: &mut Node, b: &mut Node, session: u8) {
    loop {
        let to_b = a.owner.take_outbox(&b.id);
        let to_a = b.owner.take_outbox(&a.id);
        if to_b.is_empty() && to_a.is_empty() {
            return;
        }
        let (a_id, b_id) = (a.id, b.id);
        for (records, from, to) in [(to_b, a_id, &mut *b), (to_a, b_id, &mut *a)] {
            for record in records {
                let (kind, bytes) = record.encode([session; 16]);
                let record = Control::decode(kind, &bytes, [session; 16]).unwrap();
                to.owner
                    .remote(&from, &[session; 16], record, Ok(6), to.clock, to.now);
            }
        }
    }
}

/// Carries what the publisher wants to write to the subscriber, and says what came of it.
fn carry(a: &mut Node, b: &mut Node, session: u8, payload: &[u8]) -> Vec<Option<Arrival>> {
    let mut arrivals = vec![];
    for key in a.owner.take_writes() {
        let signed = a
            .owner
            .deliveries
            .pending
            .get(&key)
            .unwrap()
            .signed
            .clone();
        let ticket = b
            .owner
            .begin(
                &a.id,
                &[session; 16],
                &key.sub,
                1,
                &signed,
                payload.len(),
                b.clock,
            )
            .unwrap();
        arrivals.push(b.owner.receive(
            &a.id,
            &[session; 16],
            &key.sub,
            ticket,
            payload,
            true,
            9,
            b.clock,
            b.now,
        ));
        a.owner.note_room(&b.id, &key.id.topic, true);
        a.owner.sent(&key, &[session; 16], Ok(()), a.now);
    }
    arrivals
}

fn pair() -> (Node, Node) {
    let authority = Authority::from_parts(&[1; 32], [3; 16]);
    (
        node(&authority, Permission::publish("jobs").unwrap(), 1),
        node(&authority, Permission::subscribe("jobs").unwrap(), 2),
    )
}

fn connected(mode: DeliveryMode) -> (Node, Node) {
    let (mut a, mut b) = pair();
    b.subscribe(mode).unwrap();
    connect(&mut a, &mut b, 8);
    (a, b)
}

fn credited(mode: DeliveryMode) -> (Node, Node, DeliveryKey) {
    let (mut a, mut b) = connected(mode);
    let key = a.publish(b"hello", mode);
    a.upkeep(0);
    assert!(a.owner.take_writes().is_empty());
    exchange(&mut a, &mut b, 8);
    b.upkeep(8);
    exchange(&mut a, &mut b, 8);
    a.upkeep(0);
    (a, b, key)
}

fn record_of(key: &DeliveryKey) -> RecordKey {
    RecordKey {
        sub: key.sub,
        id: key.id.clone(),
    }
}

#[test]
fn a_message_is_delivered_and_its_processing_is_acknowledged() {
    let (mut a, mut b, key) = credited(DeliveryMode::Acknowledged);
    assert_eq!(
        carry(&mut a, &mut b, 8, b"hello"),
        vec![Some(Arrival::Handle)]
    );
    assert!(a.outcomes().is_empty());
    b.owner
        .note_disposition(&record_of(&key), Disposition::Processed);
    b.upkeep(0);
    let replies = b.owner.take_replies();
    assert_eq!(replies.len(), 1);
    assert_eq!(replies.value_at(0).result, Ok(()));
    assert_eq!(replies.value_at(0).waiter, Some(9));
    exchange(&mut a, &mut b, 8);
    assert_eq!(a.outcomes(), vec![(RecipientOutcome::Processed, 4)]);
    let memory = MemoryUse {
        payload: 1,
        payload_peak: 2,
        metadata: 3,
        metadata_peak: 4,
    };
    let metrics = a.owner.metrics(memory);
    assert_eq!((metrics.admitted, metrics.processed), (1, 1));
    assert_eq!(metrics.peers, 1);
    assert_eq!(metrics.pending_deliveries, 0);
    assert_eq!(metrics.terminal_receipts, 1);
    assert_eq!(metrics.resident_payload_bytes, 1);
    assert_eq!(metrics.peak_metadata_bytes, 4);
}

#[test]
fn best_effort_is_over_once_it_is_written() {
    let (mut a, mut b, _) = credited(DeliveryMode::BestEffort);
    assert_eq!(
        carry(&mut a, &mut b, 8, b"hello"),
        vec![Some(Arrival::Handle)]
    );
    assert_eq!(a.outcomes(), vec![(RecipientOutcome::Sent, 4)]);
    a.wait(50);
    a.upkeep(0);
    assert!(a.owner.take_writes().is_empty());
}

#[test]
fn a_lost_acknowledgement_is_given_again_without_handling_the_message_twice() {
    let (mut a, mut b, key) = credited(DeliveryMode::Acknowledged);
    carry(&mut a, &mut b, 8, b"hello");
    b.owner
        .note_disposition(&record_of(&key), Disposition::Processed);
    b.upkeep(0);
    // The acknowledgement is lost with the connection.
    b.owner.take_outbox(&a.id);
    a.owner.note_lost(&b.id);
    b.owner.note_lost(&a.id);
    a.upkeep(0);
    b.upkeep(0);
    assert_eq!(a.owner.peers.len(), 0);
    connect(&mut a, &mut b, 11);
    a.wait(40);
    b.wait(40);
    a.upkeep(0);
    exchange(&mut a, &mut b, 11);
    b.upkeep(8);
    exchange(&mut a, &mut b, 11);
    a.upkeep(0);
    assert_eq!(
        carry(&mut a, &mut b, 11, b"hello"),
        vec![Some(Arrival::Tell(0))]
    );
    exchange(&mut a, &mut b, 11);
    assert_eq!(a.outcomes(), vec![(RecipientOutcome::Processed, 4)]);
}

#[test]
fn retryable_and_permanent_refusals_reach_the_publisher() {
    let (mut a, mut b, key) = credited(DeliveryMode::Acknowledged);
    carry(&mut a, &mut b, 8, b"hello");
    b.owner
        .note_disposition(&record_of(&key), Disposition::Retryable);
    b.upkeep(8);
    exchange(&mut a, &mut b, 8);
    assert!(a.outcomes().is_empty());
    // The message comes again under the same identity, and a handler gets it again.
    a.wait(40);
    b.wait(40);
    a.upkeep(0);
    exchange(&mut a, &mut b, 8);
    b.upkeep(8);
    exchange(&mut a, &mut b, 8);
    a.upkeep(0);
    assert_eq!(
        carry(&mut a, &mut b, 8, b"hello"),
        vec![Some(Arrival::Handle)]
    );
    b.owner
        .note_disposition(&record_of(&key), Disposition::Permanent);
    b.upkeep(8);
    exchange(&mut a, &mut b, 8);
    assert_eq!(a.outcomes(), vec![(RecipientOutcome::PermanentNack, 4)]);
}

#[test]
fn a_message_under_work_is_not_handed_out_again() {
    let (mut a, mut b, key) = credited(DeliveryMode::Acknowledged);
    let signed = a
        .owner
        .deliveries
        .pending
        .get(&key)
        .unwrap()
        .signed
        .clone();
    assert_eq!(
        carry(&mut a, &mut b, 8, b"hello"),
        vec![Some(Arrival::Handle)]
    );
    // Without another grant a second copy is refused.
    assert_eq!(
        b.owner
            .begin(&a.id, &[8; 16], &key.sub, 1, &signed, 5, b.clock)
            .err(),
        Some(Error::Protocol("DATA without credit"))
    );
    b.owner.remote(
        &a.id,
        &[8; 16],
        Control::RequestCredit {
            topic: jobs(),
            sub: key.sub,
            bytes: 8192,
        },
        Ok(6),
        b.clock,
        b.now,
    );
    b.upkeep(1);
    let ticket = b
        .owner
        .begin(&a.id, &[8; 16], &key.sub, 1, &signed, 5, b.clock)
        .unwrap();
    assert_eq!(
        b.owner.receive(
            &a.id,
            &[8; 16],
            &key.sub,
            ticket,
            b"hello",
            true,
            9,
            b.clock,
            b.now
        ),
        Some(Arrival::Ignore)
    );
}

#[test]
fn two_messages_with_one_identity_are_not_both_taken() {
    let (mut a, mut b, key) = credited(DeliveryMode::Acknowledged);
    carry(&mut a, &mut b, 8, b"hello");
    b.owner.remote(
        &a.id,
        &[8; 16],
        Control::RequestCredit {
            topic: jobs(),
            sub: key.sub,
            bytes: 8192,
        },
        Ok(6),
        b.clock,
        b.now,
    );
    b.upkeep(1);
    let mut e: Envelope = a
        .owner
        .deliveries
        .pending
        .get(&key)
        .unwrap()
        .envelope
        .clone();
    e.digest = digest(b"HELLO");
    let forged = e.sign(a.owner.identity.secret());
    assert_eq!(
        b.owner
            .begin(&a.id, &[8; 16], &key.sub, 1, &forged, 5, b.clock)
            .err(),
        Some(Error::Protocol("conflicting message identity"))
    );
}

#[test]
fn an_acknowledgement_that_nobody_awaits_ends_the_session() {
    let (mut a, b) = connected(DeliveryMode::Acknowledged);
    let stray = Control::Outcome {
        topic: jobs(),
        sub: [0xaa; 16],
        epoch: [9; 16],
        sequence: 1,
        code: 1,
    };
    a.owner
        .remote(&b.id, &[8; 16], stray, Ok(6), a.clock, a.now);
    assert_eq!(a.owner.peers.len(), 0);
    assert_eq!(a.owner.stats.authorization_failures, 1);
}

#[test]
fn without_subscribers_nothing_is_published() {
    let (mut a, _) = pair();
    assert_eq!(
        a.number(b"hello", DeliveryMode::Acknowledged).err(),
        Some(Error::NoSubscribers)
    );
    // A message that is refused uses up no number.
    let (mut a, mut b) = connected(DeliveryMode::Acknowledged);
    assert_eq!(
        a.number(&vec![0; 1024 * 1024 + 1], DeliveryMode::Acknowledged)
            .err(),
        Some(Error::MessageTooLarge)
    );
    let first = a.number(b"hello", DeliveryMode::Acknowledged).unwrap();
    let second = a.number(b"hello", DeliveryMode::Acknowledged).unwrap();
    assert_eq!(first.envelope.id.sequence, 1);
    assert_eq!(second.envelope.id.sequence, 2);
    assert_eq!(first.envelope.created, 1000);
    assert_eq!(first.envelope.expires, 1060);
    assert_eq!(first.envelope.digest, digest(b"hello"));
    assert_eq!(
        b.subscribe(DeliveryMode::Acknowledged),
        Err(Error::AlreadySubscribed)
    );
    assert_eq!(
        b.number(b"hello", DeliveryMode::Acknowledged).err(),
        Some(Error::Unauthorized)
    );
}

#[test]
fn a_peer_takes_on_only_so_much() {
    let authority = Authority::from_parts(&[1; 32], [3; 16]);
    let mut a = node_with(
        &authority,
        Permission::publish("jobs").unwrap(),
        1,
        |config| config.per_peer_messages = 1,
    );
    let mut b = node(&authority, Permission::subscribe("jobs").unwrap(), 2);
    b.subscribe(DeliveryMode::Acknowledged).unwrap();
    connect(&mut a, &mut b, 8);
    a.publish(b"hello", DeliveryMode::Acknowledged);
    let m = a.number(b"hello", DeliveryMode::Acknowledged).unwrap();
    let outcomes = a.owner.place(&m, vec![(4, 5)], a.now);
    assert_eq!(
        outcomes[0].1,
        RecipientOutcome::Rejected(Error::QueueFull)
    );
    assert_eq!(a.owner.deliveries.pending.len(), 1);
    assert_eq!(a.owner.backlog(&b.id).unwrap().0, 1);
}

#[test]
fn deadline_and_cancellation_end_a_delivery() {
    let (mut a, mut b) = connected(DeliveryMode::Acknowledged);
    let key = a.publish(b"hello", DeliveryMode::Acknowledged);
    a.owner.cancel(&key.id);
    assert_eq!(a.outcomes(), vec![(RecipientOutcome::Cancelled, 4)]);
    a.publish(b"hello", DeliveryMode::Acknowledged);
    a.wait(61);
    a.upkeep(0);
    assert_eq!(
        a.outcomes(),
        vec![(RecipientOutcome::Failed(Error::DeliveryExpired), 4)]
    );
    exchange(&mut a, &mut b, 8);
    assert!(a.owner.take_writes().is_empty());
}

#[test]
fn a_subscription_without_permission_is_refused() {
    let authority = Authority::from_parts(&[1; 32], [3; 16]);
    let mut a = node(&authority, Permission::publish("jobs").unwrap(), 1);
    let mut b = node(&authority, Permission::subscribe("logs").unwrap(), 2);
    assert_eq!(
        b.subscribe(DeliveryMode::Acknowledged),
        Err(Error::Unauthorized)
    );
    b.owner
        .subscribe(
            Topic::new("logs").unwrap(),
            DeliveryMode::Acknowledged,
            [0xaa; 16],
            Ok(3),
            CLOCK,
        )
        .unwrap();
    connect(&mut a, &mut b, 8);
    // The publisher may not publish there, so its answer is a refusal.
    let answers = &b
        .owner
        .subscriptions
        .get(&Topic::new("logs").unwrap())
        .unwrap()
        .ready;
    assert_eq!(answers.len(), 1);
    assert_eq!(answers.value_at(0).result, Err(Error::Unauthorized));
}

#[test]
fn of_two_sessions_the_one_of_the_lower_dialer_stays() {
    let (mut a, b) = pair();
    let (low, high) = if a.id.as_bytes() < b.id.as_bytes() {
        (a.id, b.id)
    } else {
        (b.id, a.id)
    };
    assert_eq!(a.register(&b, 1, high), Ok(true));
    let first = a.owner.peers.get(&b.id).unwrap().reg.session;
    let second = a.register(&b, 2, low);
    let stays = a.owner.peers.get(&b.id).unwrap().reg.session;
    assert_eq!(second, Ok(stays != first));
    // The same choice is made when the two come in the other order.
    let (mut c, d) = (a, b);
    c.owner.remove_peer(&d.id, 0);
    c.register(&d, 2, low).unwrap();
    let _ = c.register(&d, 1, high);
    assert_eq!(c.owner.peers.get(&d.id).unwrap().reg.session, stays);
}

#[test]
fn a_denied_certificate_ends_the_session() {
    let (mut a, b) = connected(DeliveryMode::Acknowledged);
    a.publish(b"hello", DeliveryMode::Acknowledged);
    assert_eq!(a.owner.deny_certificate(b.owner.cert.id()), Ok(true));
    a.upkeep(0);
    assert_eq!(a.owner.peers.len(), 0);
    assert_eq!(
        a.outcomes(),
        vec![(RecipientOutcome::Failed(Error::Unauthorized), 4)]
    );
}

#[test]
fn a_clock_that_went_back_stops_the_endpoint_for_good() {
    let (mut a, _) = connected(DeliveryMode::Acknowledged);
    a.now += 10 * SECOND;
    a.clock = Some(900);
    a.upkeep(0);
    assert_eq!(a.owner.local_valid(Some(2000)), Err(Error::Clock));
    a.clock = Some(2000);
    a.upkeep(0);
    assert_eq!(a.owner.local_valid(Some(2000)), Err(Error::Clock));
}

#[test]
fn a_draining_endpoint_takes_nothing_on_and_ends_with_its_last_delivery() {
    let (mut a, _) = connected(DeliveryMode::Acknowledged);
    let key = a.publish(b"hello", DeliveryMode::Acknowledged);
    let mode = ShutdownMode::Drain {
        timeout: Duration::from_secs(5),
    };
    let deadline = mode.deadline(a.now).unwrap();
    assert_eq!(deadline, 5 * SECOND);
    a.owner.shutdown(deadline).unwrap();
    assert_eq!(a.owner.shutdown(deadline), Err(Error::ShuttingDown));
    assert_eq!(
        a.number(b"hello", DeliveryMode::Acknowledged).err(),
        Some(Error::ShuttingDown)
    );
    assert_eq!(
        a.subscribe(DeliveryMode::Acknowledged),
        Err(Error::ShuttingDown)
    );
    assert!(!a.owner.drained(a.now));
    assert!(a.owner.drained(deadline));
    a.owner.finish();
    assert_eq!(
        a.outcomes(),
        vec![(RecipientOutcome::Failed(Error::ShuttingDown), 4)]
    );
    let _ = key;
    assert_eq!(ShutdownMode::Immediate.deadline(7), Ok(7));
    assert!(ShutdownMode::Drain {
        timeout: Duration::from_secs(u64::MAX)
    }
    .deadline(LAST_MOMENT)
    .is_err());
}

#[test]
fn credit_goes_to_those_who_wait_while_there_is_memory() {
    let authority = Authority::from_parts(&[1; 32], [3; 16]);
    let mut a = node(&authority, Permission::publish("jobs").unwrap(), 1);
    let mut c = node(&authority, Permission::publish("jobs").unwrap(), 3);
    let mut b = node(&authority, Permission::subscribe("jobs").unwrap(), 2);
    b.subscribe(DeliveryMode::Acknowledged).unwrap();
    connect(&mut a, &mut b, 8);
    connect(&mut c, &mut b, 12);
    // A publisher with nothing to send takes no room away from the other.
    c.publish(b"hello", DeliveryMode::Acknowledged);
    a.upkeep(0);
    c.upkeep(0);
    exchange(&mut a, &mut b, 8);
    exchange(&mut c, &mut b, 12);
    b.upkeep(1);
    let grants = &b.owner.subscriptions.get(&jobs()).unwrap().grants;
    assert_eq!(grants.len(), 1);
    assert_eq!(grants.key_at(0).as_bytes(), c.id.as_bytes());
    assert_eq!(grants.value_at(0).held, 70);
    exchange(&mut c, &mut b, 12);
    c.upkeep(0);
    assert_eq!(c.owner.take_writes().len(), 1);
}

#[test]
fn all_who_feed_a_subscription_share_what_it_may_have_out() {
    let authority = Authority::from_parts(&[1; 32], [3; 16]);
    let mut a = node(&authority, Permission::publish("jobs").unwrap(), 1);
    let mut c = node(&authority, Permission::publish("jobs").unwrap(), 3);
    let mut b = node_with(&authority, Permission::subscribe("jobs").unwrap(), 2, |config| {
        config.subscription_messages = 1;
    });
    b.subscribe(DeliveryMode::Acknowledged).unwrap();
    let mut allowances = Allowances::new();
    b.owner.open_allowance(&jobs(), &mut allowances);
    assert_eq!(allowances.out(&jobs()), Some((0, 0)));
    connect(&mut a, &mut b, 8);
    connect(&mut c, &mut b, 12);
    for (node, session) in [(&mut a, 8), (&mut c, 12)] {
        node.publish(b"hello", DeliveryMode::Acknowledged);
        node.upkeep(0);
        exchange(node, &mut b, session);
    }
    let mut metadata = Budget::new(1024 * 1024);
    let mut pool = BufferPool::new(64 * 1024 * 1024, 1024 * 1024);
    for _ in 0..3 {
        b.upkeep_with(&mut allowances, &mut metadata, &mut pool);
        let grants = &b.owner.subscriptions.get(&jobs()).unwrap().grants;
        assert_eq!(grants.len(), 1);
    }
    let frame = 1024 * 1024 + 16384 + 12;
    assert_eq!(allowances.out(&jobs()), Some((1, frame)));
    assert_eq!(metadata.used(), 6144 + 256);
    assert_eq!(pool.resident_bytes(), 1024 * 1024 + 256);
    b.owner.note_closed(&jobs());
    b.upkeep(0);
    b.owner.close_allowances(&mut allowances);
    assert_eq!(allowances.out(&jobs()), None);
}

#[test]
fn a_request_that_overtakes_a_frame_is_not_lost() {
    let (mut a, mut b, _) = credited(DeliveryMode::Acknowledged);
    // The frame is to be written, and the room for it is still granted at the other end.
    let grants = |b: &Node| b.owner.subscriptions.get(&jobs()).unwrap().grants.len();
    assert_eq!(grants(&b), 1);
    a.publish(b"again", DeliveryMode::Acknowledged);
    a.upkeep(0);
    exchange(&mut a, &mut b, 8);
    b.upkeep(8);
    assert_eq!(grants(&b), 1);
    assert!(b.owner.take_outbox(&a.id).is_empty());
    // Only then does the frame come in.
    assert_eq!(
        carry(&mut a, &mut b, 8, b"hello"),
        vec![Some(Arrival::Handle)]
    );
    assert_eq!(grants(&b), 0);
    b.upkeep(8);
    assert_eq!(grants(&b), 1);
    exchange(&mut a, &mut b, 8);
    a.upkeep(0);
    assert_eq!(
        carry(&mut a, &mut b, 8, b"again"),
        vec![Some(Arrival::Handle)]
    );
}

#[test]
fn a_grant_that_was_not_asked_for_ends_the_session() {
    let (mut a, b) = connected(DeliveryMode::Acknowledged);
    let gift = Control::Credit {
        topic: jobs(),
        sub: [0xaa; 16],
        bytes: 8192,
    };
    a.owner
        .remote(&b.id, &[8; 16], gift, Ok(6), a.clock, a.now);
    assert_eq!(a.owner.peers.len(), 0);
}

#[test]
fn an_ended_subscription_is_told_to_the_publisher() {
    let (mut a, mut b) = connected(DeliveryMode::Acknowledged);
    a.publish(b"hello", DeliveryMode::Acknowledged);
    b.owner.note_closed(&jobs());
    b.upkeep(0);
    assert_eq!(b.owner.subscriptions.len(), 0);
    exchange(&mut a, &mut b, 8);
    assert_eq!(
        a.outcomes(),
        vec![(RecipientOutcome::Failed(Error::SubscriptionClosed), 4)]
    );
    assert_eq!(
        a.number(b"hello", DeliveryMode::Acknowledged).err(),
        Some(Error::NoSubscribers)
    );
}

#[test]
fn a_renewed_certificate_keeps_what_is_pending() {
    let authority = Authority::from_parts(&[1; 32], [3; 16]);
    let (mut a, mut b) = connected(DeliveryMode::Acknowledged);
    a.publish(b"hello", DeliveryMode::Acknowledged);
    let renewed = authority
        .issue(
            a.id,
            vec![Permission::publish("jobs").unwrap()],
            100,
            200_000,
            CertificateLimits::default(),
        )
        .unwrap();
    assert_eq!(a.owner.review_renewal(&renewed, a.clock), Ok(()));
    a.owner
        .renew(renewed.clone(), Ok(()), a.clock, a.now)
        .unwrap();
    assert_eq!(a.owner.cert.id(), renewed.id());
    assert_eq!(a.owner.deliveries.pending.len(), 1);
    assert_eq!(
        a.owner
            .renew(b.owner.cert.clone(), Ok(()), a.clock, a.now)
            .err(),
        Some(Error::Unauthorized)
    );
    b.owner.note_lost(&a.id);
    b.upkeep(0);
    assert_eq!(b.owner.peers.len(), 0);
}

#[test]
fn contacts_of_another_realm_are_not_dialed() {
    let (a, b) = pair();
    let mut invite = PeerInvite {
        realm_id: [3; 16],
        authority: a.owner.config.trust.root(),
        host: b.id,
        ips: vec!["ip:127.0.0.1:4433".to_string()],
        relays: vec![],
    };
    assert_eq!(a.owner.review_dial(&invite, a.clock), Ok(true));
    invite.realm_id = [4; 16];
    assert_eq!(
        a.owner.review_dial(&invite, a.clock),
        Err(Error::Unauthorized)
    );
}

#[test]
fn connections_are_counted_by_the_second() {
    let authority = Authority::from_parts(&[1; 32], [3; 16]);
    let mut a = node_with(
        &authority,
        Permission::publish("jobs").unwrap(),
        1,
        |config| config.max_peers = 2,
    );
    let taken = (0..100).filter(|_| a.owner.count_attempt(0)).count();
    assert!(taken > 0 && taken < 100);
    assert!(!a.owner.count_attempt(SECOND - 1));
    assert!(a.owner.count_attempt(SECOND));
}

#[test]
fn messages_are_told_apart_by_every_part_of_their_identity() {
    let (mut a, _) = connected(DeliveryMode::Acknowledged);
    let m = a.number(b"hello", DeliveryMode::Acknowledged).unwrap();
    let id: MessageId = m.envelope.id.clone();
    assert_eq!(id.realm_id, [3; 16]);
    assert_eq!(id.publisher_endpoint_id, a.id);
    assert_eq!(id.publisher_epoch, [1; 16]);
    let mut other = id.clone();
    other.sequence += 1;
    assert_ne!(id, other);
}

#[test]
fn messages_of_a_topic_go_out_in_order() {
    let (mut a, mut b) = connected(DeliveryMode::Acknowledged);
    for _ in 0..3 {
        a.publish(b"hello", DeliveryMode::Acknowledged);
    }
    for sequence in 1..=3 {
        a.upkeep(0);
        exchange(&mut a, &mut b, 8);
        b.upkeep(1);
        exchange(&mut a, &mut b, 8);
        a.upkeep(0);
        let writes = a.owner.take_writes();
        assert_eq!(writes.len(), 1);
        assert_eq!(writes[0].id.sequence, sequence);
        let signed = &a.owner.deliveries.pending.get(&writes[0]).unwrap().signed;
        let ticket = b
            .owner
            .begin(&a.id, &[8; 16], &writes[0].sub, 1, signed, 5, b.clock)
            .unwrap();
        assert_eq!(ticket.keep, signed.len() + 2048);
        a.owner.sent(&writes[0], &[8; 16], Ok(()), a.now);
        a.owner.note_room(&b.id, &jobs(), true);
    }
}

#[test]
fn a_peer_that_cannot_take_a_message_does_not_keep_it_from_others() {
    let authority = Authority::from_parts(&[1; 32], [3; 16]);
    let mut a = node(&authority, Permission::publish("jobs").unwrap(), 1);
    let mut b = node(&authority, Permission::subscribe("jobs").unwrap(), 2);
    let mut c = node(&authority, Permission::subscribe("jobs").unwrap(), 3);
    b.subscribe(DeliveryMode::Acknowledged).unwrap();
    c.subscribe(DeliveryMode::Acknowledged).unwrap();
    let dialer = a.id;
    let mut small = session_with(&b, 8, dialer);
    small.max_payload = 4;
    assert_eq!(a.owner.register(b.id, small, Ok(()), CLOCK, 0), Ok(true));
    assert_eq!(b.register(&a, 8, dialer), Ok(true));
    exchange(&mut a, &mut b, 8);
    connect(&mut a, &mut c, 12);
    let m = a.number(b"hello", DeliveryMode::Acknowledged).unwrap();
    assert_eq!(m.recipients.len(), 2);
    for (peer, outcome) in a.owner.place(&m, vec![(4, 5), (6, 7)], a.now) {
        if peer == b.id {
            assert_eq!(outcome, RecipientOutcome::Rejected(Error::MessageTooLarge));
        } else {
            assert_eq!(outcome, RecipientOutcome::Pending);
        }
    }
    assert_eq!(a.owner.stats.admitted, 1);
    assert_eq!(a.owner.stats.rejected, 1);
}

#[test]
fn a_peer_that_says_goodbye_keeps_what_is_on_its_way() {
    let (mut a, b) = connected(DeliveryMode::Acknowledged);
    a.publish(b"hello", DeliveryMode::Acknowledged);
    a.owner
        .remote(&b.id, &[8; 16], Control::Goodbye, Ok(6), a.clock, a.now);
    assert_eq!(a.owner.deliveries.pending.len(), 1);
    assert_eq!(
        a.number(b"hello", DeliveryMode::Acknowledged).err(),
        Some(Error::NoSubscribers)
    );
}

#[test]
fn what_is_remembered_of_a_message_lasts_as_long_as_the_message() {
    let (mut a, mut b, key) = credited(DeliveryMode::Acknowledged);
    carry(&mut a, &mut b, 8, b"hello");
    b.owner
        .note_disposition(&record_of(&key), Disposition::Processed);
    b.upkeep(0);
    b.wait(59);
    b.upkeep(0);
    assert_eq!(b.owner.records.len(), 1);
    b.wait(1);
    b.upkeep(0);
    assert_eq!(b.owner.records.len(), 0);
}

#[test]
fn a_delivery_that_was_tried_is_remembered_beyond_its_end() {
    let (mut a, mut b, key) = credited(DeliveryMode::Acknowledged);
    carry(&mut a, &mut b, 8, b"hello");
    assert_eq!(a.owner.deliveries.closed.len(), 0);
    a.wait(60);
    a.upkeep(0);
    assert!(a.owner.deliveries.pending.is_empty());
    assert_eq!(
        a.outcomes(),
        vec![(RecipientOutcome::Failed(Error::DeliveryExpired), 4)]
    );
    assert!(a.owner.deliveries.closed.contains_key(&key));
    let grace = a.owner.config.handshake_timeout.as_secs();
    a.wait(grace - 1);
    a.upkeep(0);
    assert!(a.owner.deliveries.closed.contains_key(&key));
    a.wait(1);
    a.upkeep(0);
    assert!(!a.owner.deliveries.closed.contains_key(&key));
}

struct Opened {
    left: usize,
    asked: Vec<(EndpointId, usize)>,
}

impl Receipts<u32> for Opened {
    fn open(&mut self, peer: &EndpointId, n: usize) -> Result<(u32, u32), Error> {
        self.asked.push((*peer, n));
        if self.left == 0 {
            return Err(Error::QueueFull);
        }
        self.left -= 1;
        Ok((4, 5))
    }
}

#[test]
fn publishing_opens_every_receipt_before_anyone_gets_the_message() {
    let (mut a, b) = connected(DeliveryMode::Acknowledged);
    let mut none = Ledger::new(Opened {
        left: 0,
        asked: vec![],
    });
    let refused = a.owner.publish(
        jobs(),
        b"hello",
        PublishOptions::default(),
        a.clock,
        a.now,
        &mut none,
    );
    assert_eq!(refused.err(), Some(Error::QueueFull));
    let asked = none.into_source().asked;
    assert_eq!(asked.len(), 1);
    assert_eq!(asked[0].0, b.id);
    assert_eq!(a.owner.deliveries.pending.len(), 0);
    let mut enough = Ledger::new(Opened {
        left: 1,
        asked: vec![],
    });
    let (id, outcomes) = a
        .owner
        .publish(
            jobs(),
            b"hello",
            PublishOptions::default(),
            a.clock,
            a.now,
            &mut enough,
        )
        .unwrap();
    // The number of the refused message is not used again.
    assert_eq!(id.sequence, 2);
    assert_eq!(outcomes, vec![(b.id, RecipientOutcome::Pending)]);
    let signed = a.owner.deliveries.pending.value_at(0).signed.len();
    assert_eq!(enough.into_source().asked, vec![(b.id, signed + 2048)]);
    // Room for it has been asked for at once.
    assert!(matches!(
        a.owner.take_outbox(&b.id)[..],
        [Control::RequestCredit { .. }]
    ));
}

#[test]
fn a_session_that_is_over_does_not_end_the_one_after_it() {
    let (mut a, b) = connected(DeliveryMode::Acknowledged);
    a.owner.end_session(&b.id, &[9; 16], a.now);
    assert_eq!(a.owner.peers.len(), 1);
    a.owner.end_session(&b.id, &[8; 16], a.now);
    assert_eq!(a.owner.peers.len(), 0);
}
