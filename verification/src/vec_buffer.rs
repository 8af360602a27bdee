use vstd::prelude::*;
use crate::ring_buffer::{accepts, uses_within};
use vstd::slice::{slice_subrange, slice_to_vec};

verus! {

/// A buffer over a vector: items are read from `head` on, and a push adds items at the end.
pub struct VecBuffer<T> {
    data: Vec<T>,
    head: usize,
}

/// The consumer was offered the `count` items from `head` on, answered `value` having used
/// `used` of them, and the head moved past those.
pub open spec fn vec_popped<T, U, F: FnOnce(&[T], &[T]) -> (U, usize)>(
    contents: Seq<T>,
    head: nat,
    count: nat,
    consumer: F,
    value: U,
    after_head: nat,
) -> bool {
    exists|a: &[T], b: &[T], used: usize|
        {
            &&& a@ == contents.subrange(head as int, (head + count) as int)
            &&& b@ == Seq::<T>::empty()
            &&& #[trigger] consumer.ensures((a, b), (value, used))
            &&& after_head == head + used
        }
}

impl<T: Copy> VecBuffer<T> {
    /// The slots of the vector.
    pub closed spec fn contents(&self) -> Seq<T> {
        self.data@
    }

    /// The slot the next pop reads first.
    pub closed spec fn head_index(&self) -> nat {
        self.head as nat
    }

    /// The head stays within the vector.
    pub closed spec fn wf(&self) -> bool {
        self.head <= self.data@.len()
    }

    /// An empty buffer.
    pub fn new() -> (r: Self)
        ensures
            r.wf(),
            r.contents() == Seq::<T>::empty(),
            r.head_index() == 0,
    {
        VecBuffer { data: Vec::new(), head: 0 }
    }

    /// Puts `items` into the buffer, after what it holds; the head stays. `count`, the room the
    /// caller expects to fill, is not needed: the vector grows as the items come.
    pub fn push(&mut self, count: usize, items: &[T])
        requires
            old(self).wf(),
        ensures
            final(self).wf(),
            final(self).head_index() == old(self).head_index(),
            final(self).contents() == old(self).contents() + items@,
    {
        let ghost before = self.data@;
        let mut i: usize = 0;
        while i < items.len()
            invariant
                self.head == old(self).head,
                before == old(self).data@,
                i <= items@.len(),
                self.data@ == before + items@.take(i as int),
            decreases items@.len() - i,
        {
            self.data.push(items[i]);
            i += 1;
            assert(self.data@ =~= before + items@.take(i as int));
        }
        assert(items@.take(items@.len() as int) =~= items@);
    }

    /// `push`, which always goes ahead.
    pub fn try_push(&mut self, count: usize, items: &[T]) -> (r: Option<()>)
        requires
            old(self).wf(),
        ensures
            r is Some,
            final(self).wf(),
            final(self).head_index() == old(self).head_index(),
            final(self).contents() == old(self).contents() + items@,
    {
        self.push(count, items);
        Some(())
    }

    /// When `count` items follow the head, offers them to the consumer and moves the head past
    /// as many as the consumer says it used; otherwise returns nothing and changes nothing.
    pub fn try_pop<U, F: FnOnce(&[T], &[T]) -> (U, usize)>(&mut self, count: usize, consumer: F) -> (r: Option<U>)
        requires
            old(self).wf(),
            old(self).head_index() + count <= old(self).contents().len() ==> accepts(
                consumer,
                (
                    old(self).contents().subrange(
                        old(self).head_index() as int,
                        old(self).head_index() + count,
                    ),
                    Seq::<T>::empty(),
                ),
            ),
            old(self).head_index() + count <= old(self).contents().len() ==> uses_within(
                consumer,
                (
                    old(self).contents().subrange(
                        old(self).head_index() as int,
                        old(self).head_index() + count,
                    ),
                    Seq::<T>::empty(),
                ),
            ),
        ensures
            final(self).wf(),
            final(self).contents() == old(self).contents(),
            old(self).contents().len() - old(self).head_index() < count ==> {
                &&& r is None
                &&& final(self).head_index() == old(self).head_index()
            },
            old(self).contents().len() - old(self).head_index() >= count ==> (r matches Some(
                value,
            ) && vec_popped(
                old(self).contents(),
                old(self).head_index(),
                count as nat,
                consumer,
                value,
                final(self).head_index(),
            )),
    {
        if self.data.len() - self.head < count {
            return None;
        }
        let window = slice_to_vec(slice_subrange(self.data.as_slice(), self.head, self.head + count));
        let empty: Vec<T> = Vec::new();
        let a = window.as_slice();
        let b = empty.as_slice();
        let (value, used) = consumer(a, b);
        self.head = self.head + used;
        assert(consumer.ensures((a, b), (value, used)));
        Some(value)
    }
}

} // verus!
