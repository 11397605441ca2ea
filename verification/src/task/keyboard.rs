//! The queue of keyboard scancodes between the interrupt handler that fills it
//! and the task that drains it.

use crossbeam_queue::ArrayQueue;
use vstd::prelude::*;

verus! {

/// Number of scancodes that the queue holds at most.
pub const SCANCODE_QUEUE_CAPACITY: usize = 100;

/// `crossbeam_queue::ArrayQueue`: a bounded queue. Its contents are known only
/// through [`array_queue_contents`] and [`array_queue_capacity`].
#[verifier::external_type_specification]
#[verifier::external_body]
#[verifier::reject_recursive_types(T)]
pub struct ExArrayQueue<T>(ArrayQueue<T>);

/// The bytes that wait in a queue, oldest first.
pub uninterp spec fn array_queue_contents(queue: ArrayQueue<u8>) -> Seq<u8>;

/// The number of bytes that a queue was made to hold.
pub uninterp spec fn array_queue_capacity(queue: ArrayQueue<u8>) -> nat;

/// `crossbeam_queue::ArrayQueue::new`: an empty queue for `capacity` values.
/// The outside function rejects a capacity of zero.
#[verifier::external_body]
fn array_queue_new(capacity: usize) -> (queue: ArrayQueue<u8>)
    requires
        capacity > 0,
    ensures
        array_queue_contents(queue) == Seq::<u8>::empty(),
        array_queue_capacity(queue) == capacity,
{
    ArrayQueue::new(capacity)
}

/// `crossbeam_queue::ArrayQueue::push`: the value goes behind the others where
/// the queue holds fewer values than its capacity, and is handed back, the
/// queue unchanged, where the queue is full. The result says whether the value
/// went in.
#[verifier::external_body]
fn array_queue_push(queue: &mut ArrayQueue<u8>, value: u8) -> (pushed: bool)
    ensures
        pushed == (array_queue_contents(*old(queue)).len() < array_queue_capacity(*old(queue))),
        array_queue_capacity(*final(queue)) == array_queue_capacity(*old(queue)),
        array_queue_contents(*final(queue)) == if pushed {
            array_queue_contents(*old(queue)).push(value)
        } else {
            array_queue_contents(*old(queue))
        },
{
    queue.push(value).is_ok()
}

/// `crossbeam_queue::ArrayQueue::pop`: takes out the oldest value, or nothing
/// where the queue is empty.
#[verifier::external_body]
fn array_queue_pop(queue: &mut ArrayQueue<u8>) -> (value: Option<u8>)
    ensures
        array_queue_capacity(*final(queue)) == array_queue_capacity(*old(queue)),
        match value {
            Some(v) => {
                &&& array_queue_contents(*old(queue)).len() > 0
                &&& v == array_queue_contents(*old(queue))[0]
                &&& array_queue_contents(*final(queue)) == array_queue_contents(*old(queue)).skip(1)
            },
            None => {
                &&& array_queue_contents(*old(queue)).len() == 0
                &&& array_queue_contents(*final(queue)) == array_queue_contents(*old(queue))
            },
        },
{
    match queue.pop() {
        Ok(v) => Some(v),
        Err(_) => None,
    }
}

/// What became of a scancode that the keyboard handed in.
#[derive(Clone, Copy, Debug, PartialEq, Eq, Structural)]
pub enum ScancodeOutcome {
    /// The scancode waits in the queue; the task that drains it is to be woken.
    Queued,
    /// The queue was full; the scancode is lost.
    QueueFull,
    /// There is no queue yet; the scancode is lost.
    Uninitialized,
}

/// The stream of scancodes, oldest first.
pub struct ScancodeStream {
    queue: ArrayQueue<u8>,
}

impl ScancodeStream {
    /// The scancodes that wait to be read, oldest first.
    pub closed spec fn pending(&self) -> Seq<u8> {
        array_queue_contents(self.queue)
    }

    /// The stream holds no more scancodes than its queue has room for.
    pub closed spec fn wf(&self) -> bool {
        &&& array_queue_capacity(self.queue) == SCANCODE_QUEUE_CAPACITY
        &&& array_queue_contents(self.queue).len() <= SCANCODE_QUEUE_CAPACITY
    }

    /// A stream in which nothing waits.
    pub fn new() -> (stream: ScancodeStream)
        ensures
            stream.wf(),
            stream.pending() == Seq::<u8>::empty(),
    {
        ScancodeStream { queue: array_queue_new(SCANCODE_QUEUE_CAPACITY) }
    }

    /// Puts `scancode` behind those that wait, unless as many wait as the
    /// queue can hold.
    pub fn push(&mut self, scancode: u8) -> (outcome: ScancodeOutcome)
        requires
            old(self).wf(),
        ensures
            final(self).wf(),
            outcome == if old(self).pending().len() < SCANCODE_QUEUE_CAPACITY {
                ScancodeOutcome::Queued
            } else {
                ScancodeOutcome::QueueFull
            },
            final(self).pending() == if old(self).pending().len() < SCANCODE_QUEUE_CAPACITY {
                old(self).pending().push(scancode)
            } else {
                old(self).pending()
            },
    {
        if array_queue_push(&mut self.queue, scancode) {
            ScancodeOutcome::Queued
        } else {
            ScancodeOutcome::QueueFull
        }
    }

    /// Takes the oldest scancode that waits, or `None` where none does: the
    /// task is then to wait until it is woken.
    pub fn poll_next(&mut self) -> (scancode: Option<u8>)
        requires
            old(self).wf(),
        ensures
            final(self).wf(),
            scancode == if old(self).pending().len() > 0 {
                Some(old(self).pending()[0])
            } else {
                None
            },
            final(self).pending() == if old(self).pending().len() > 0 {
                old(self).pending().skip(1)
            } else {
                old(self).pending()
            },
    {
        array_queue_pop(&mut self.queue)
    }
}

/// Hands a scancode from the keyboard to the stream, if there is one. The
/// outcome says whether the reader is to be woken or the loss reported.
pub fn add_scancode(stream: &mut Option<ScancodeStream>, scancode: u8) -> (outcome: ScancodeOutcome)
    requires
        *old(stream) matches Some(s) ==> s.wf(),
    ensures
        match *old(stream) {
            None => outcome == ScancodeOutcome::Uninitialized && *final(stream) == *old(stream),
            Some(before) => {
                &&& *final(stream) matches Some(after)
                &&& after.wf()
                &&& outcome == if before.pending().len() < SCANCODE_QUEUE_CAPACITY {
                    ScancodeOutcome::Queued
                } else {
                    ScancodeOutcome::QueueFull
                }
                &&& after.pending() == if before.pending().len() < SCANCODE_QUEUE_CAPACITY {
                    before.pending().push(scancode)
                } else {
                    before.pending()
                }
            },
        },
{
    match stream {
        Some(s) => s.push(scancode),
        None => ScancodeOutcome::Uninitialized,
    }
}

} // verus!
