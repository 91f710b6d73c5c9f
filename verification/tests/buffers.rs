use rtn_mq::allowances::{set_aside, Allowances, CreditCharge};
use rtn_mq::buffer::Budget;
use rtn_mq::queue::{channel, settle_poll, settle_room, settle_send, Polled};
use rtn_mq::{BufferPool, Error, Topic};

#[test]
fn final_lease_release_controls_memory_budget() {
    let mut p = BufferPool::new(272, 16);
    let a = p.copy_from_slice(&[0; 16]).unwrap();
    let b = p.share(&a).unwrap();
    assert!(matches!(p.copy_from_slice(&[0]), Err(Error::QueueFull)));
    p.release(a);
    assert_eq!(p.resident_bytes(), 272);
    p.release(b);
    assert_eq!(p.resident_bytes(), 0);
    let mut vector = Vec::with_capacity(32);
    vector.push(1);
    assert!(matches!(p.from_vec(vector), Err(Error::QueueFull)));
}

#[test]
fn payloads_are_kept_as_they_were_given() {
    let mut p = BufferPool::new(4096, 16);
    let a = p.copy_from_slice(b"abc").unwrap();
    assert_eq!(a.as_bytes(), b"abc");
    assert_eq!((a.len(), a.is_empty()), (3, false));
    assert_eq!(a.copy_payload(), b"abc".to_vec());
    assert!(p.owns(&a));
    assert!(!BufferPool::new(4096, 16).owns(&a));
    assert!(matches!(
        p.copy_from_slice(&[0; 17]),
        Err(Error::MessageTooLarge)
    ));
    let b = p.from_vec(vec![4, 5]).unwrap();
    assert_eq!(b.as_bytes(), &[4, 5]);
    let peak = p.peak_bytes();
    assert!(peak >= 3 + 256 + 2 + 256);
    p.release(a);
    p.release(b);
    assert_eq!(p.resident_bytes(), 0);
    assert_eq!(p.peak_bytes(), peak);
}

#[test]
fn releasing_undoes_reserving() {
    let mut b = Budget::new(100);
    let a = b.reserve(60).unwrap();
    assert_eq!(b.reserve(41).err(), Some(Error::QueueFull));
    assert_eq!(b.used(), 60);
    b.shrink_to(&a, 10);
    assert_eq!(b.amount(&a), Some(10));
    assert_eq!((b.used(), b.peak()), (10, 60));
    let shared = b.share(&a).unwrap();
    b.release(a);
    assert_eq!(b.used(), 10);
    b.release(shared);
    assert_eq!(b.used(), 0);
}

#[test]
fn full_queue_never_overwrites() {
    let (mut tx, mut rx) = channel(1);
    assert!(tx.has_room());
    assert_eq!(tx.try_send(1), Ok(()));
    assert!(!tx.has_room());
    assert_eq!(tx.try_send(2), Err(2));
    assert!(matches!(rx.poll(), Polled::Item(1)));
    assert!(matches!(rx.poll(), Polled::Empty));
    drop(rx);
    assert!(tx.is_closed());
    assert_eq!(tx.try_send(3), Err(3));
}

#[test]
fn queue_wraps_around_and_gives_the_rest_after_it_was_closed() {
    let (mut tx, mut rx) = channel(2);
    for value in 0..100 {
        assert_eq!(tx.try_send(value), Ok(()));
        assert!(matches!(rx.poll(), Polled::Item(v) if v == value));
    }
    tx.try_send(100).unwrap();
    drop(tx);
    assert!(matches!(rx.poll(), Polled::Item(100)));
    assert!(matches!(rx.poll(), Polled::Closed));
}

#[test]
fn a_queue_is_closed_only_when_nothing_came_last() {
    assert!(matches!(settle_poll(Some(1), true, None), Polled::Item(1)));
    assert!(matches!(settle_poll(None, true, Some(2)), Polled::Item(2)));
    assert!(matches!(settle_poll::<u8>(None, true, None), Polled::Closed));
    assert!(matches!(settle_poll::<u8>(None, false, None), Polled::Empty));
}

#[test]
fn an_item_is_taken_only_where_there_is_a_place_and_a_taker() {
    assert!(settle_room(false, false));
    assert!(!settle_room(true, false));
    assert!(!settle_room(false, true));
    assert!(!settle_room(true, true));
}

#[test]
fn reservations_outlive_those_that_were_released_before_them() {
    let mut b = Budget::new(100);
    let first = b.reserve(10).unwrap();
    let second = b.reserve(20).unwrap();
    b.release(first);
    let third = b.reserve(30).unwrap();
    let fourth = b.reserve(5).unwrap();
    assert_eq!(
        [&second, &third, &fourth].map(|p| b.amount(p)),
        [Some(20), Some(30), Some(5)]
    );
    b.release(second);
    assert_eq!(b.amount(&third), Some(30));
    b.release(third);
    b.release(fourth);
    assert_eq!((b.used(), b.peak()), (0, 55));
    // However often memory is reserved and released, it can be reserved again.
    for _ in 0..1000 {
        let p = b.reserve(100).unwrap();
        assert!(matches!(b.reserve(1), Err(Error::QueueFull)));
        b.release(p);
    }
}

#[test]
fn an_item_is_put_in_only_where_someone_may_take_it_out() {
    assert_eq!(settle_send(false, 7), Ok(7));
    assert_eq!(settle_send(true, 7), Err(7));
}

const CHARGE: CreditCharge = CreditCharge {
    bytes: 50,
    payload: 30,
    metadata: 20,
    transit: 5,
};

#[test]
fn room_for_a_frame_is_set_aside_whole_or_not_at_all() {
    // What there is of messages, bytes, metadata and payload memory, and what was in use at most.
    let cases = [
        ((1, 50, 25, 30), true, (1, 50, 25, 30)),
        ((1, 50, 19, 30), false, (0, 0, 0, 0)),
        ((0, 50, 25, 30), false, (0, 0, 20, 0)),
        ((1, 49, 25, 30), false, (1, 0, 20, 0)),
        ((1, 50, 24, 30), false, (1, 50, 20, 0)),
        ((1, 50, 25, 29), false, (1, 50, 25, 0)),
    ];
    for (limits, enough, peaks) in cases {
        let mut slots = Budget::new(limits.0);
        let mut bytes = Budget::new(limits.1);
        let mut metadata = Budget::new(limits.2);
        let mut pool = BufferPool::new(limits.3, 1024);
        let r = set_aside(&mut slots, &mut bytes, &mut metadata, &mut pool, CHARGE);
        let used = (
            slots.used(),
            bytes.used(),
            metadata.used(),
            pool.resident_bytes(),
        );
        assert_eq!(used, if enough { (1, 50, 25, 30) } else { (0, 0, 0, 0) });
        assert_eq!(
            (slots.peak(), bytes.peak(), metadata.peak(), pool.peak_bytes()),
            peaks
        );
        match r {
            Ok(p) => {
                assert!(enough);
                assert_eq!(metadata.amount(&p.metadata), Some(20));
                assert_eq!(metadata.amount(&p.transit), Some(5));
                assert_eq!(slots.amount(&p.slot), Some(1));
                assert_eq!(bytes.amount(&p.bytes), Some(50));
                pool.give_back(p.payload);
                assert_eq!(pool.resident_bytes(), 0);
            }
            Err(e) => assert!(!enough && e == Error::QueueFull),
        }
    }
}

#[test]
fn a_subscription_has_no_more_out_than_it_may() {
    let jobs = Topic::new("jobs").unwrap();
    let other = Topic::new("other").unwrap();
    let mut metadata = Budget::new(1000);
    let mut pool = BufferPool::new(1000, 1000);
    let mut allowances = Allowances::new();
    allowances.open(&jobs, 2, 120);
    assert_eq!(
        allowances
            .set_aside(&other, &mut metadata, &mut pool, CHARGE)
            .err(),
        Some(Error::SubscriptionClosed)
    );
    let first = allowances
        .set_aside(&jobs, &mut metadata, &mut pool, CHARGE)
        .unwrap();
    allowances
        .set_aside(&jobs, &mut metadata, &mut pool, CHARGE)
        .unwrap();
    assert_eq!(allowances.out(&jobs), Some((2, 100)));
    let third = allowances.set_aside(&jobs, &mut metadata, &mut pool, CHARGE);
    assert_eq!(third.err(), Some(Error::QueueFull));
    assert_eq!(allowances.out(&jobs), Some((2, 100)));
    allowances.give_back(&jobs, first.slot);
    assert_eq!(allowances.out(&jobs), Some((1, 100)));
    let third = allowances.set_aside(&jobs, &mut metadata, &mut pool, CHARGE);
    assert_eq!(third.err(), Some(Error::QueueFull));
    // A new subscription starts with nothing out, and what the old one had is not given back to it.
    allowances.open(&jobs, 2, 120);
    let again = allowances
        .set_aside(&jobs, &mut metadata, &mut pool, CHARGE)
        .unwrap();
    allowances.give_back(&jobs, first.bytes);
    assert_eq!(allowances.out(&jobs), Some((1, 50)));
    allowances.give_back(&jobs, again.bytes);
    assert_eq!(allowances.out(&jobs), Some((1, 0)));
}
