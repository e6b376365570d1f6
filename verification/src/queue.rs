//! A first-in, first-out queue of entries that carry a value.

use vstd::prelude::*;
use std::collections::VecDeque;

verus! {

/// An entry of a `Queue`: the value it carries, and a link that a new
/// entry starts without.
pub struct QueueEntry<T> {
    next: Option<Box<QueueEntry<T>>>,
    data: T,
}

impl<T> QueueEntry<T> {
    /// The value that the entry carries.
    pub closed spec fn value(&self) -> T {
        self.data
    }

    /// Whether the entry links to another one.
    pub closed spec fn is_linked(&self) -> bool {
        self.next is Some
    }

    /// A new, unlinked entry that carries `data`.
    pub fn new(data: T) -> (entry: Self)
        ensures
            entry.value() == data,
            !entry.is_linked(),
    {
        QueueEntry { next: None, data }
    }

    /// The value that the entry carries.
    pub fn data(&self) -> (r: &T)
        ensures
            *r == self.value(),
    {
        &self.data
    }
}

/// A first-in, first-out queue of entries.
pub struct Queue<T> {
    queue: VecDeque<QueueEntry<T>>,
}

impl<T> View for Queue<T> {
    type V = Seq<T>;

    /// The values of the entries, the oldest first.
    closed spec fn view(&self) -> Seq<T> {
        self.queue@.map_values(|e: QueueEntry<T>| e.value())
    }
}

impl<T> Queue<T> {
    /// An empty queue.
    pub fn new() -> (q: Self)
        ensures
            q@ == Seq::<T>::empty(),
    {
        let q = Queue { queue: VecDeque::new() };
        assert(q@ =~= Seq::<T>::empty());
        q
    }

    /// Adds `data` at the back of the queue.
    pub fn push(&mut self, data: QueueEntry<T>)
        ensures
            final(self)@ == old(self)@.push(data.value()),
    {
        self.queue.push_back(data);
        assert(self@ =~= old(self)@.push(data.value()));
    }

    /// Removes and returns the entry at the front of the queue, or `None`
    /// when the queue is empty.
    pub fn pop(&mut self) -> (r: Option<QueueEntry<T>>)
        ensures
            old(self)@.len() == 0 ==> r is None && final(self)@ == old(self)@,
            old(self)@.len() > 0 ==> (r matches Some(e) && e.value() == old(self)@[0]
                && final(self)@ == old(self)@.drop_first()),
    {
        let r = self.queue.pop_front();
        assert(self@ =~= if old(self)@.len() == 0 {
            old(self)@
        } else {
            old(self)@.drop_first()
        });
        r
    }

    /// The value at the front of the queue, or `None` when the queue is empty.
    pub fn peek(&self) -> (r: Option<&T>)
        ensures
            self@.len() == 0 ==> r is None,
            self@.len() > 0 ==> (r matches Some(v) && *v == self@[0]),
    {
        if self.queue.len() == 0 {
            None
        } else {
            Some(&self.queue[0].data)
        }
    }

    /// Replaces the value of every entry, front to back, by what `func`
    /// makes of it.
    pub fn foreach<F>(&mut self, mut func: F)
        where
            F: FnMut(T) -> T,
        requires
            forall|v: T| #[trigger] call_requires(func, (v,)),
        ensures
            final(self)@.len() == old(self)@.len(),
            forall|i: int|
                0 <= i < old(self)@.len() ==> call_ensures(
                    func,
                    (old(self)@[i],),
                    #[trigger] final(self)@[i],
                ),
    {
        let n: usize = self.queue.len();
        let mut i: usize = 0;
        let ghost f0 = func;
        let ghost mut done: Seq<T> = Seq::empty();
        while i < n
            invariant
                i <= n,
                func == f0,
                n == old(self)@.len(),
                done.len() == i,
                self@ == old(self)@.skip(i as int) + done,
                forall|v: T| #[trigger] call_requires(func, (v,)),
                forall|j: int|
                    0 <= j < i ==> call_ensures(func, (old(self)@[j],), #[trigger] done[j]),
            decreases n - i,
        {
            let ghost before: Seq<T> = self@;
            let ghost old_queue = self.queue@;
            assert(self.queue@.len() == before.len() && before.len() == n);
            assert(before[0] == self.queue@[0].value());
            let entry = self.queue.pop_front().unwrap();
            let QueueEntry { next, data } = entry;
            assert(data == old(self)@[i as int]) by {
                assert(before[0] == old(self)@.skip(i as int)[0]);
            }
            let changed = func(data);
            proof {
                broadcast use vstd::function::group_function_axioms;

                done = done.push(changed);
            }
            self.queue.push_back(QueueEntry { next, data: changed });
            assert forall|k: int| 0 <= k < n implies #[trigger] self@[k] == (old(self)@.skip(
                i + 1,
            ) + done)[k] by {
                if k < n - 1 {
                    assert(self.queue@[k] == old_queue[k + 1]);
                    assert(before[k + 1] == old_queue[k + 1].value());
                }
            }
            assert(self@ =~= old(self)@.skip(i + 1) + done);
            i = i + 1;
        }
        assert(self@ =~= done);
    }
}


/// Pushing at the back does not change what leaves at the front: popping
/// after a push on a non-empty queue gives its old front and the same queue
/// as pushing after the pop; on an empty queue it gives back the pushed
/// value and leaves the queue empty.
pub proof fn lemma_push_then_pop<T>(items: Seq<T>, x: T)
    ensures
        items.len() > 0 ==> items.push(x)[0] == items[0] && items.push(x).drop_first()
            == items.drop_first().push(x),
        items.len() == 0 ==> items.push(x)[0] == x && items.push(x).drop_first() == items,
{
    if items.len() > 0 {
        assert(items.push(x).drop_first() =~= items.drop_first().push(x));
    } else {
        assert(items.push(x).drop_first() =~= items);
    }
}

} // verus!
