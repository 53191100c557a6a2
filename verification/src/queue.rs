//! The bounded queue that carries captured samples to the picture.
//!
//! A sample is held as its 32-bit pattern, a *word*: the queue and everything
//! behind it move words and never look at the number that a word stands for.

use ringbuf::traits::{Consumer, Producer};
use ringbuf::HeapRb;
use vstd::prelude::*;

verus! {

/// A `ringbuf::HeapRb` of words. `queued` and `slots` name what it holds.
#[verifier::external_body]
pub struct Ring {
    inner: HeapRb<u32>,
}

/// The words in a ring, oldest first.
pub uninterp spec fn queued(ring: Ring) -> Seq<u32>;

/// The number of words that a ring can hold at once, fixed when it is made.
pub uninterp spec fn slots(ring: Ring) -> nat;

/// `HeapRb::new`: an empty ring with the given number of slots. It panics on
/// zero slots and on more than fit in memory.
#[verifier::external_body]
fn ring_new(capacity: usize) -> (ring: Ring)
    requires
        0 < capacity,
        capacity * 4 <= isize::MAX,
    ensures
        queued(ring) == Seq::<u32>::empty(),
        slots(ring) == capacity,
{
    Ring { inner: HeapRb::new(capacity) }
}

/// `Producer::push_slice` on a `HeapRb`: appends as many leading words as
/// there are free slots, leaves out the others, and returns how many it took.
#[verifier::external_body]
fn ring_push_slice(ring: &mut Ring, words: &[u32]) -> (count: usize)
    ensures
        slots(*final(ring)) == slots(*old(ring)),
        count == fitting(words@.len(), slots(*old(ring)) - queued(*old(ring)).len()),
        queued(*final(ring)) == queued(*old(ring)) + words@.take(count as int),
{
    ring.inner.push_slice(words)
}

/// `Consumer::pop_slice` on a `HeapRb`: moves the oldest words to the front of
/// `out`, as many as there are and as fit, leaves the rest of `out` alone, and
/// returns how many it moved.
#[verifier::external_body]
fn ring_pop_slice(ring: &mut Ring, out: &mut Vec<u32>) -> (count: usize)
    ensures
        slots(*final(ring)) == slots(*old(ring)),
        count == fitting(queued(*old(ring)).len(), old(out)@.len() as int),
        queued(*final(ring)) == queued(*old(ring)).skip(count as int),
        final(out)@ == queued(*old(ring)).take(count as int) + old(out)@.skip(count as int),
{
    ring.inner.pop_slice(out)
}

/// How many of `wanted` things go into `free` places.
pub open spec fn fitting(wanted: nat, free: int) -> int {
    if wanted <= free {
        wanted as int
    } else {
        free
    }
}

/// A queue after words were pushed: behind what it held stand the leading
/// words that fit.
pub open spec fn appended(held: Seq<u32>, capacity: nat, words: Seq<u32>) -> Seq<u32> {
    held + words.take(fitting(words.len(), capacity - held.len()))
}

/// What comes out of a queue into `room` places: the oldest words.
pub open spec fn taken(held: Seq<u32>, room: nat) -> Seq<u32> {
    held.take(fitting(held.len(), room as int))
}

/// What is left in a queue after that.
pub open spec fn left(held: Seq<u32>, room: nat) -> Seq<u32> {
    held.skip(fitting(held.len(), room as int))
}

/// A first-in, first-out queue of words with a fixed capacity. What does not
/// fit is dropped.
pub struct SampleQueue {
    ring: Ring,
}

impl View for SampleQueue {
    type V = Seq<u32>;

    /// The queued words, oldest first.
    closed spec fn view(&self) -> Seq<u32> {
        queued(self.ring)
    }
}

impl SampleQueue {
    /// The number of words that the queue can hold at once.
    pub closed spec fn capacity(&self) -> nat {
        slots(self.ring)
    }

    /// An empty queue.
    pub fn new(capacity: usize) -> (queue: Self)
        requires
            0 < capacity,
            capacity * 4 <= isize::MAX,
        ensures
            queue@ == Seq::<u32>::empty(),
            queue.capacity() == capacity,
    {
        SampleQueue { ring: ring_new(capacity) }
    }

    /// Appends the leading words that fit and drops the others; returns how
    /// many were appended.
    pub fn push_slice(&mut self, words: &[u32]) -> (count: usize)
        ensures
            final(self).capacity() == old(self).capacity(),
            count == fitting(words@.len(), old(self).capacity() - old(self)@.len()),
            final(self)@ == appended(old(self)@, old(self).capacity(), words@),
            final(self)@.len() <= final(self).capacity(),
    {
        ring_push_slice(&mut self.ring, words)
    }

    /// Moves the oldest words to the front of `out`, as many as fit; returns
    /// how many were moved.
    pub fn pop_slice(&mut self, out: &mut Vec<u32>) -> (count: usize)
        ensures
            final(self).capacity() == old(self).capacity(),
            count == fitting(old(self)@.len(), old(out)@.len() as int),
            final(self)@ == left(old(self)@, old(out)@.len()),
            final(out)@ == taken(old(self)@, old(out)@.len()) + old(out)@.skip(count as int),
    {
        ring_pop_slice(&mut self.ring, out)
    }
}

/// The queue is first-in, first-out: what is taken out, and then what is left,
/// are the words that were held before and then those that were appended, in
/// order.
pub proof fn lemma_first_in_first_out(
    held: Seq<u32>,
    capacity: nat,
    words: Seq<u32>,
    room: nat,
)
    requires
        held.len() <= capacity,
    ensures
        ({
            let all = appended(held, capacity, words);
            &&& all.len() <= capacity
            &&& held.len() + words.len() <= capacity ==> all == held + words
            &&& held.len() + words.len() > capacity ==> all.len() == capacity
            &&& all.take(held.len() as int) == held
            &&& all.skip(held.len() as int).is_prefix_of(words)
            &&& taken(all, room) + left(all, room) == all
            &&& all.len() <= room ==> left(all, room).len() == 0
            &&& all.len() > room ==> taken(all, room).len() == room
        }),
{
    let all = appended(held, capacity, words);
    assert(all.take(held.len() as int) =~= held);
    assert(held.len() + words.len() <= capacity ==> all =~= held + words);
    assert(taken(all, room) + left(all, room) =~= all);
}

/// Words that fit are all given back: pushed to an empty queue and taken out
/// with enough room, they come out as they went in, and nothing is left.
pub proof fn lemma_what_fits_comes_back(words: Seq<u32>, capacity: nat, room: nat)
    requires
        words.len() <= capacity,
        words.len() <= room,
    ensures
        taken(appended(Seq::empty(), capacity, words), room) == words,
        left(appended(Seq::empty(), capacity, words), room) == Seq::<u32>::empty(),
{
    let all = appended(Seq::empty(), capacity, words);
    assert(all =~= words);
    assert(taken(all, room) =~= words);
    assert(left(all, room) =~= Seq::<u32>::empty());
}

} // verus!
