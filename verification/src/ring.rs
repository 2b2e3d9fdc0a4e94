//! The shared-memory ring: a bounded lock-free queue of byte records.
//!
//! Producers never block and never overwrite: a full ring refuses the
//! newest record (drop-newest), and records over the per-record cap are
//! refused outright. The queue itself is crossbeam's `ArrayQueue`; it is
//! multi-producer multi-consumer, so nothing can be promised about what
//! a concurrent read returns, only about this call's own outcome.

use vstd::prelude::*;

verus! {

#[verifier::external_type_specification]
#[verifier::external_body]
#[verifier::reject_recursive_types(T)]
pub struct ExArrayQueue<T>(crossbeam::queue::ArrayQueue<T>);

/// The slot count an `ArrayQueue` was created with.
pub uninterp spec fn ring_capacity(q: crossbeam::queue::ArrayQueue<Vec<u8>>) -> usize;

/// Relies on crossbeam's `ArrayQueue::new`: a bounded lock-free queue
/// with exactly `cap` slots. It panics on zero or absurdly large
/// capacities, so those are excluded here.
#[verifier::external_body]
fn queue_new(cap: usize) -> (r: crossbeam::queue::ArrayQueue<Vec<u8>>)
    requires
        1 <= cap <= 1_000_000,
    ensures
        ring_capacity(r) == cap,
{
    crossbeam::queue::ArrayQueue::new(cap)
}

/// Relies on crossbeam's `ArrayQueue::push`: enqueues the value, or
/// hands it back unchanged when the queue is full; it never overwrites
/// an element.
#[verifier::external_body]
fn queue_push(q: &crossbeam::queue::ArrayQueue<Vec<u8>>, value: Vec<u8>) -> (r: Result<
    (),
    Vec<u8>,
>)
    ensures
        r matches Err(v) ==> v@ == value@,
{
    q.push(value)
}

/// Relies on crossbeam's `ArrayQueue::pop`: the oldest element, or
/// nothing when the queue is empty at that moment.
#[verifier::external_body]
fn queue_pop(q: &crossbeam::queue::ArrayQueue<Vec<u8>>) -> Option<Vec<u8>> {
    q.pop()
}

/// Relies on crossbeam's `ArrayQueue::len`: the number of elements at
/// some moment, never more than the capacity.
#[verifier::external_body]
fn queue_len(q: &crossbeam::queue::ArrayQueue<Vec<u8>>) -> (r: usize)
    ensures
        r <= ring_capacity(*q),
{
    q.len()
}

/// Relies on crossbeam's `ArrayQueue::is_empty`.
#[verifier::external_body]
fn queue_is_empty(q: &crossbeam::queue::ArrayQueue<Vec<u8>>) -> bool {
    q.is_empty()
}

/// Why a record was not written.
#[derive(Clone, Copy, PartialEq, Eq, Structural, Debug)]
pub enum RingError {
    /// Every slot is taken; the record is dropped, not an older one.
    Full,
    /// The record exceeds the per-record size cap.
    TooLarge,
}

/// Default per-record size cap: 64 KiB.
pub const DEFAULT_MAX_MESSAGE_SIZE: usize = 65536;

pub struct SharedMemoryRing {
    name: String,
    queue: crossbeam::queue::ArrayQueue<Vec<u8>>,
    max_message_size: usize,
}

impl SharedMemoryRing {
    /// The per-record size cap.
    pub closed spec fn spec_max_message_size(&self) -> usize {
        self.max_message_size
    }

    /// The ring's logical name.
    pub closed spec fn spec_name(&self) -> Seq<char> {
        self.name@
    }

    /// The ring's slot count.
    pub closed spec fn spec_capacity(&self) -> usize {
        ring_capacity(self.queue)
    }

    /// A ring with `capacity` slots and the default record cap.
    pub fn new(name: &str, capacity: usize) -> (r: SharedMemoryRing)
        requires
            1 <= capacity <= 1_000_000,
        ensures
            r.spec_name() == name@,
            r.spec_max_message_size() == DEFAULT_MAX_MESSAGE_SIZE,
            r.spec_capacity() == capacity,
    {
        SharedMemoryRing {
            name: crate::text::owned_str(name),
            queue: queue_new(capacity),
            max_message_size: DEFAULT_MAX_MESSAGE_SIZE,
        }
    }

    /// Writes one record without blocking. Records over the cap are
    /// refused as `TooLarge`; within the cap the record is enqueued
    /// unless every slot is taken at that moment, in which case it is
    /// dropped as `Full`. Nothing already queued is ever displaced.
    pub fn write(&self, data: &[u8]) -> (r: Result<(), RingError>)
        ensures
            r == Err::<(), RingError>(RingError::TooLarge) <==> data@.len()
                > self.spec_max_message_size(),
            data@.len() <= self.spec_max_message_size() ==> (r is Ok || r == Err::<
                (),
                RingError,
            >(RingError::Full)),
    {
        if data.len() > self.max_message_size {
            return Err(RingError::TooLarge);
        }
        let owned = vstd::slice::slice_to_vec(data);
        match queue_push(&self.queue, owned) {
            Ok(()) => Ok(()),
            Err(_) => Err(RingError::Full),
        }
    }

    /// Pops one record without blocking; absent when the queue is empty
    /// at that moment. Concurrent producers decide what is returned, so
    /// no more can be promised.
    pub fn read(&self) -> Option<Vec<u8>> {
        queue_pop(&self.queue)
    }

    /// How many records sit in the ring at some moment.
    pub fn len(&self) -> (r: usize)
        ensures
            r <= self.spec_capacity(),
    {
        queue_len(&self.queue)
    }

    /// Whether the ring was empty at some moment.
    pub fn is_empty(&self) -> bool {
        queue_is_empty(&self.queue)
    }
}

} // verus!
