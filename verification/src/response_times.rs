//! The response times a host has shown: the most recent ones, in a
//! fixed-size circular buffer of the `circular_buffer` crate.

use vstd::prelude::*;
use circular_buffer::CircularBuffer;

verus! {

/// How many response times a host keeps.
pub const RESPONSE_TIME_CAPACITY: usize = 100;

#[verifier::external_type_specification]
#[verifier::external_body]
#[verifier::reject_recursive_types(T)]
pub struct ExCircularBuffer<const N: usize, T>(CircularBuffer<N, T>);

/// The items a buffer of response times holds, oldest first.
pub uninterp spec fn buffer_items(buffer: CircularBuffer<100, u128>) -> Seq<u128>;

/// `CircularBuffer::new`: an empty buffer.
#[verifier::external_body]
fn buffer_new() -> (buffer: CircularBuffer<100, u128>)
    ensures
        buffer_items(buffer) == Seq::<u128>::empty(),
{
    CircularBuffer::new()
}

/// `CircularBuffer::push_back`: appends `item` at the back; a buffer that
/// already holds its capacity first loses its front item, which is
/// returned. The call does not panic: it neither allocates nor drops
/// anything but a `u128`.
#[verifier::external_body]
fn buffer_push_back(buffer: &mut CircularBuffer<100, u128>, item: u128) -> (evicted: Option<u128>)
    ensures
        buffer_items(*old(buffer)).len() >= RESPONSE_TIME_CAPACITY ==> {
            &&& buffer_items(*final(buffer)) == buffer_items(*old(buffer)).drop_first().push(item)
            &&& evicted == Some(buffer_items(*old(buffer))[0])
        },
        buffer_items(*old(buffer)).len() < RESPONSE_TIME_CAPACITY ==> {
            &&& buffer_items(*final(buffer)) == buffer_items(*old(buffer)).push(item)
            &&& evicted == None::<u128>
        },
    no_unwind
{
    buffer.push_back(item)
}

/// `CircularBuffer::to_vec`: the items, oldest first, in a new vector; the
/// buffer is unchanged.
#[verifier::external_body]
fn buffer_to_vec(buffer: &CircularBuffer<100, u128>) -> (items: Vec<u128>)
    ensures
        items@ == buffer_items(*buffer),
{
    buffer.to_vec()
}

/// The most recent response times of a host, in milliseconds.
pub struct ResponseTimes {
    buffer: CircularBuffer<100, u128>,
}

impl View for ResponseTimes {
    type V = Seq<u128>;

    /// The kept response times, oldest first.
    closed spec fn view(&self) -> Seq<u128> {
        buffer_items(self.buffer)
    }
}

impl ResponseTimes {
    #[verifier::type_invariant]
    spec fn within_capacity(self) -> bool {
        buffer_items(self.buffer).len() <= RESPONSE_TIME_CAPACITY
    }

    /// No response times yet.
    pub fn new() -> (times: ResponseTimes)
        ensures
            times@ == Seq::<u128>::empty(),
    {
        ResponseTimes { buffer: buffer_new() }
    }

    /// Records a response time. Once the capacity is reached, the oldest
    /// time is dropped to make room.
    pub fn record(&mut self, millis: u128)
        ensures
            final(self)@ == if old(self)@.len() < RESPONSE_TIME_CAPACITY {
                old(self)@.push(millis)
            } else {
                old(self)@.drop_first().push(millis)
            },
            final(self)@.len() <= RESPONSE_TIME_CAPACITY,
    {
        proof {
            use_type_invariant(&*self);
        }
        let _evicted = buffer_push_back(&mut self.buffer, millis);
    }

    /// The kept response times, oldest first.
    pub fn to_vec(&self) -> (items: Vec<u128>)
        ensures
            items@ == self@,
            self@.len() <= RESPONSE_TIME_CAPACITY,
    {
        proof {
            use_type_invariant(self);
        }
        buffer_to_vec(&self.buffer)
    }
}

/// Recording keeps the most recent times: the time just recorded is the
/// last one kept, and the times kept before stay in their order.
pub proof fn recording_keeps_the_latest(before: Seq<u128>, after: Seq<u128>, millis: u128)
    requires
        before.len() <= RESPONSE_TIME_CAPACITY,
        after == if before.len() < RESPONSE_TIME_CAPACITY {
            before.push(millis)
        } else {
            before.drop_first().push(millis)
        },
    ensures
        after.len() == if before.len() < RESPONSE_TIME_CAPACITY {
            before.len() + 1int
        } else {
            RESPONSE_TIME_CAPACITY as int
        },
        after.last() == millis,
        forall|i: int|
            0 <= i < after.len() - 1 ==> #[trigger] after[i] == before[i + before.len() + 1
                - after.len()],
{
}

} // verus!
