use vstd::prelude::*;

use crate::address::Address;

verus! {

// The frontier queue keeps the addresses that were discovered but not yet
// attempted. The crawl does not depend on the order in which they surface;
// the queue nevertheless is a FIFO, and the contracts say so exactly.
//
// The backing structure is crossbeam's unbounded segmented queue, taken on
// trust through the declarations and wrappers below.

/// Declares crossbeam's queue type so that it can stand in fields
/// and signatures; its values are opaque to the verifier.
#[verifier::external_type_specification]
#[verifier::external_body]
#[verifier::reject_recursive_types(T)]
pub struct ExSegQueue<T>(crossbeam_queue::SegQueue<T>);

/// The sequence of addresses a segmented queue holds, head first.
pub uninterp spec fn seg_queue_items(q: crossbeam_queue::SegQueue<Address>) -> Seq<Address>;

/// Relies on crossbeam_queue::SegQueue::new: a new queue is empty.
#[verifier::external_body]
fn seg_new() -> (q: crossbeam_queue::SegQueue<Address>)
    ensures
        seg_queue_items(q) == Seq::<Address>::empty(),
{
    crossbeam_queue::SegQueue::new()
}

/// Relies on crossbeam_queue::SegQueue::push: appends the element at
/// the tail and never fails.
#[verifier::external_body]
fn seg_push(q: &mut crossbeam_queue::SegQueue<Address>, a: Address)
    ensures
        seg_queue_items(*final(q)) == seg_queue_items(*old(q)).push(a),
{
    q.push(a)
}

/// Relies on crossbeam_queue::SegQueue::pop: removes and returns the
/// element at the head, or `None` when the queue is empty.
#[verifier::external_body]
fn seg_pop(q: &mut crossbeam_queue::SegQueue<Address>) -> (r: Option<Address>)
    ensures
        match r {
            Option::None => seg_queue_items(*old(q)).len() == 0 && seg_queue_items(*final(q))
                == seg_queue_items(*old(q)),
            Option::Some(a) => seg_queue_items(*old(q)).len() > 0 && a == seg_queue_items(
                *old(q),
            )[0] && seg_queue_items(*final(q)) == seg_queue_items(*old(q)).drop_first(),
        },
{
    q.pop()
}

/// Relies on crossbeam_queue::SegQueue::len: the number of elements held.
#[verifier::external_body]
fn seg_len(q: &crossbeam_queue::SegQueue<Address>) -> (n: usize)
    ensures
        n == seg_queue_items(*q).len(),
{
    q.len()
}

/// The unbounded work queue of addresses awaiting a crawl attempt.
///
/// `push` enqueues unconditionally and never fails; `pop` polls: it hands
/// back one pending address or signals emptiness without blocking. The
/// same address may sit in the queue several times; the visited store,
/// not the queue, decides what was already handled.
pub struct FrontierQueue {
    inner: crossbeam_queue::SegQueue<Address>,
}

impl View for FrontierQueue {
    type V = Seq<Address>;

    closed spec fn view(&self) -> Seq<Address> {
        seg_queue_items(self.inner)
    }
}

impl FrontierQueue {
    /// Creates an empty frontier.
    pub fn new() -> (q: FrontierQueue)
        ensures
            q@ == Seq::<Address>::empty(),
    {
        FrontierQueue { inner: seg_new() }
    }

    /// Enqueues one address at the tail.
    pub fn push(&mut self, a: Address)
        ensures
            final(self)@ == old(self)@.push(a),
    {
        seg_push(&mut self.inner, a)
    }

    /// Removes and returns the address at the head, or `None` when the
    /// queue holds nothing right now.
    pub fn pop(&mut self) -> (r: Option<Address>)
        ensures
            match r {
                Option::None => old(self)@.len() == 0 && final(self)@ == old(self)@,
                Option::Some(a) => old(self)@.len() > 0 && a == old(self)@[0] && final(self)@
                    == old(self)@.drop_first(),
            },
    {
        seg_pop(&mut self.inner)
    }

    /// The number of addresses currently queued.
    pub fn len(&self) -> (n: usize)
        ensures
            n == self@.len(),
    {
        seg_len(&self.inner)
    }
}

} // verus!
