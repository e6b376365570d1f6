//! A first-in, first-out queue of opaque handles (addresses that the caller
//! owns) with a count of its entries. C code holds it only through a
//! pointer: the type is not `#[repr(C)]` and its layout is not shared.

use vstd::prelude::*;
use std::collections::VecDeque;

verus! {

/// An entry of a `queue_head`: the handle it carries.
#[allow(non_camel_case_types)]
pub struct queue_entry {
    data: usize,
}

/// A queue of handles and the number of its entries.
#[allow(non_camel_case_types)]
pub struct queue_head {
    entries: VecDeque<queue_entry>,
    num: u32,
}

impl View for queue_head {
    type V = Seq<usize>;

    /// The handles in the queue, the oldest first.
    closed spec fn view(&self) -> Seq<usize> {
        self.entries@.map_values(|e: queue_entry| e.data)
    }
}

impl queue_head {
    /// The count of entries agrees with the entries held.
    #[verifier::type_invariant]
    spec fn wf(&self) -> bool {
        self.num == self.entries@.len()
    }

    /// The number of entries in the queue: the count that the queue keeps
    /// always equals the number of handles it holds.
    pub fn num(&self) -> (n: u32)
        ensures
            n == self@.len(),
    {
        proof {
            use_type_invariant(self);
        }
        self.num
    }
}

/// Empties the queue.
pub fn queue_init(queue: &mut queue_head)
    ensures
        final(queue)@ == Seq::<usize>::empty(),
{
    *queue = create_queue_head();
}

/// A new, empty queue.
pub fn create_queue_head() -> (queue: queue_head)
    ensures
        queue@ == Seq::<usize>::empty(),
{
    let queue = queue_head { entries: VecDeque::new(), num: 0 };
    assert(queue@ =~= Seq::<usize>::empty());
    queue
}

/// Adds `data` at the back of the queue and returns it.
pub fn queue_push(queue: &mut queue_head, data: usize) -> (r: usize)
    requires
        old(queue)@.len() < u32::MAX,
    ensures
        r == data,
        final(queue)@ == old(queue)@.push(data),
{
    let mut taken = create_queue_head();
    core::mem::swap(queue, &mut taken);
    proof {
        use_type_invariant(&taken);
    }
    let queue_head { mut entries, num } = taken;
    entries.push_back(queue_entry { data });
    *queue = queue_head { entries, num: num + 1 };
    assert(queue@ =~= old(queue)@.push(data));
    data
}

/// Removes and returns the handle at the front of the queue, or `None`
/// when the queue is empty.
pub fn queue_pop(queue: &mut queue_head) -> (r: Option<usize>)
    ensures
        old(queue)@.len() == 0 ==> r is None && final(queue)@ == old(queue)@,
        old(queue)@.len() > 0 ==> r == Some(old(queue)@[0]) && final(queue)@ == old(
            queue,
        )@.drop_first(),
{
    let mut taken = create_queue_head();
    core::mem::swap(queue, &mut taken);
    proof {
        use_type_invariant(&taken);
    }
    let queue_head { mut entries, num } = taken;
    match entries.pop_front() {
        None => {
            *queue = queue_head { entries, num };
            assert(queue@ =~= old(queue)@);
            None
        },
        Some(entry) => {
            *queue = queue_head { entries, num: num - 1 };
            assert(queue@ =~= old(queue)@.drop_first());
            Some(entry.data)
        },
    }
}

/// The handle at the front of the queue, or `None` when the queue is empty.
pub fn queue_peek(queue: &queue_head) -> (r: Option<usize>)
    ensures
        queue@.len() == 0 ==> r is None,
        queue@.len() > 0 ==> r == Some(queue@[0]),
{
    if queue.entries.len() == 0 {
        None
    } else {
        Some(queue.entries[0].data)
    }
}

} // verus!
