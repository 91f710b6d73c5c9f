//! A queue with one producer and one consumer, which neither blocks nor loses what is put into it.
use vstd::prelude::*;

verus! {

/// The largest capacity of a queue.
pub const MAX_QUEUE: usize = 65536;

/// `rtrb::Producer`: the end of a ring buffer that items are put in at.
#[verifier::external_type_specification]
#[verifier::external_body]
#[verifier::reject_recursive_types(T)]
pub struct ExProducer<T>(rtrb::Producer<T>);

/// `rtrb::Consumer`: the end of a ring buffer that items are taken out at.
#[verifier::external_type_specification]
#[verifier::external_body]
#[verifier::reject_recursive_types(T)]
pub struct ExConsumer<T>(rtrb::Consumer<T>);

/// `rtrb::RingBuffer::new`. It fails only where it cannot allocate so many items.
#[verifier::external_body]
fn ring<T>(capacity: usize) -> (ends: (rtrb::Producer<T>, rtrb::Consumer<T>))
    requires
        capacity <= MAX_QUEUE,
{
    rtrb::RingBuffer::new(capacity)
}

/// `rtrb::Producer::push`. Whether there is room depends on what the other end has taken out by
/// then; an item for which there is none is handed back.
#[verifier::external_body]
fn push<T>(end: &mut rtrb::Producer<T>, item: T) -> (r: Result<(), T>)
    ensures
        r matches Err(back) ==> back == item,
{
    match end.push(item) {
        Ok(()) => Ok(()),
        Err(rtrb::PushError::Full(back)) => Err(back),
    }
}

/// `rtrb::Producer::is_full`, as things are when it is called.
#[verifier::external_body]
fn full<T>(end: &rtrb::Producer<T>) -> bool {
    end.is_full()
}

/// `rtrb::Producer::is_abandoned`: whether the other end is gone, as things are when it is called.
#[verifier::external_body]
fn consumer_gone<T>(end: &rtrb::Producer<T>) -> bool {
    end.is_abandoned()
}

/// `rtrb::Consumer::pop`. Whether there is an item depends on what the other end has put in by
/// then.
#[verifier::external_body]
fn pop<T>(end: &mut rtrb::Consumer<T>) -> Option<T> {
    end.pop().ok()
}

/// `rtrb::Consumer::is_abandoned`: whether the other end is gone, as things are when it is called.
#[verifier::external_body]
fn producer_gone<T>(end: &rtrb::Consumer<T>) -> bool {
    end.is_abandoned()
}

/// `std::sync::atomic::fence`, so that what the other end put in before it went is seen.
#[verifier::external_body]
fn catch_up() {
    std::sync::atomic::fence(std::sync::atomic::Ordering::Acquire)
}

/// The end of a queue that items are put in at.
#[verifier::reject_recursive_types(T)]
pub struct Sender<T> {
    producer: rtrb::Producer<T>,
}

/// The end of a queue that items are taken out at.
#[verifier::reject_recursive_types(T)]
pub struct Receiver<T> {
    consumer: rtrb::Consumer<T>,
}

/// What is found at the end of a queue.
pub enum Polled<T> {
    Item(T),
    /// Nothing yet.
    Empty,
    /// Nothing, and nothing will come.
    Closed,
}

/// A queue for `capacity` items.
pub fn channel<T>(capacity: usize) -> (ends: (Sender<T>, Receiver<T>))
    requires
        capacity <= MAX_QUEUE,
{
    let (producer, consumer) = ring(capacity);
    (Sender { producer }, Receiver { consumer })
}

/// What is found at the end of a queue: `first` is what was taken out, `closed` whether the other
/// end was gone after that, and `last` what was taken out then.
pub open spec fn found<T>(first: Option<T>, closed: bool, last: Option<T>) -> Polled<T> {
    match first {
        Some(item) => Polled::Item(item),
        None => if closed {
            match last {
                Some(item) => Polled::Item(item),
                None => Polled::Closed,
            }
        } else {
            Polled::Empty
        },
    }
}

/// Tells what is found at the end of a queue.
pub fn settle_poll<T>(first: Option<T>, closed: bool, last: Option<T>) -> (r: Polled<T>)
    ensures
        r == found(first, closed, last),
{
    match first {
        Some(item) => Polled::Item(item),
        None => {
            if closed {
                match last {
                    Some(item) => Polled::Item(item),
                    None => Polled::Closed,
                }
            } else {
                Polled::Empty
            }
        },
    }
}

/// Tells whether an item would be taken: `closed` is whether the other end is gone, and `full`
/// whether there is no place left.
pub fn settle_room(closed: bool, full: bool) -> (room: bool)
    ensures
        room == (!closed && !full),
{
    !closed && !full
}

/// Tells whether an item is to be put in: `closed` is whether the other end is gone. The item is
/// handed on if it is, and handed back if not.
pub fn settle_send<T>(closed: bool, item: T) -> (r: Result<T, T>)
    ensures
        r == (if closed {
            Err::<T, T>(item)
        } else {
            Ok::<T, T>(item)
        }),
{
    if closed {
        Err(item)
    } else {
        Ok(item)
    }
}

impl<T> Sender<T> {
    /// Puts an item in, or hands it back where the other end is gone or there is no room.
    pub fn try_send(&mut self, item: T) -> (r: Result<(), T>)
        ensures
            r matches Err(back) ==> back == item,
    {
        let item = settle_send(self.is_closed(), item)?;
        push(&mut self.producer, item)
    }

    /// Whether the other end is gone.
    pub fn is_closed(&self) -> bool {
        consumer_gone(&self.producer)
    }

    /// Whether an item would be taken now.
    pub fn has_room(&self) -> bool {
        settle_room(self.is_closed(), full(&self.producer))
    }
}

impl<T> Receiver<T> {
    /// Looks for an item. What was put in before the other end went is still found after it.
    pub fn poll(&mut self) -> Polled<T> {
        let first = pop(&mut self.consumer);
        if first.is_some() {
            return settle_poll(first, false, None);
        }
        let closed = producer_gone(&self.consumer);
        let last = if closed {
            catch_up();
            pop(&mut self.consumer)
        } else {
            None
        };
        settle_poll(first, closed, last)
    }
}

} // verus!
