use vstd::arithmetic::div_mod::{
    lemma_add_mod_noop_right, lemma_mod_bound, lemma_small_mod, lemma_sub_mod_noop,
};
use vstd::prelude::*;

verus! {

/// Until a pop asks for more, a push waits while the buffer holds this many items.
pub const DEFAULT_PUSH_BLOCKING_SIZE: usize = 48000;

/// A ring buffer of `N` slots. The slots are allocated as the buffer first fills up, so none is
/// ever read before it is written.
pub struct BlockingRingBuffer<T, const N: usize> {
    buffer: Vec<T>,
    head: usize,
    len: usize,
    push_blocking_size: usize,
}

impl<T, const N: usize> View for BlockingRingBuffer<T, N> {
    type V = Seq<T>;

    /// The items in the buffer, oldest first.
    closed spec fn view(&self) -> Seq<T> {
        Seq::new(self.len as nat, |i: int| self.buffer@[(self.head + i) % (N as int)])
    }
}

/// The items that a pop of `count` items offers its consumer, in two parts: when the live items
/// do not wrap past the end of the slots, all of them; otherwise the first `count` items, split
/// at the end of the slots.
pub open spec fn window<T>(contents: Seq<T>, head: nat, n: nat, count: nat) -> (Seq<T>, Seq<T>) {
    if head < (head + contents.len()) % n {
        (contents, Seq::empty())
    } else if n - head >= count {
        (contents.take(count as int), Seq::empty())
    } else {
        (contents.take(n - head), contents.subrange(n - head, count as int))
    }
}

/// The push-blocking size after a pop of `count` items.
pub open spec fn next_push_blocking_size(size: nat, count: nat) -> nat {
    if size == DEFAULT_PUSH_BLOCKING_SIZE && count > 0 {
        count * 2
    } else if size >= count * 2 {
        size
    } else {
        count * 2
    }
}

spec fn slot_of(head: usize, k: int, n: usize) -> int {
    (head + k) % (n as int)
}

proof fn lemma_mod_distinct(x: int, y: int, m: int)
    requires
        0 <= x < y,
        y - x < m,
    ensures
        x % m != y % m,
{
    lemma_sub_mod_noop(y, x, m);
    lemma_small_mod((y - x) as nat, m as nat);
    lemma_mod_bound(x, m);
    lemma_mod_bound(y, m);
    if x % m == y % m {
        assert((y % m) - (x % m) == 0);
        assert(0int % m == 0) by {
            lemma_small_mod(0, m as nat);
        }
    }
}

/// The consumer can be called on slices that hold the two parts of `offered`.
pub open spec fn accepts<T, U, F: FnOnce(&[T], &[T]) -> (U, usize)>(
    consumer: F,
    offered: (Seq<T>, Seq<T>),
) -> bool {
    forall|a: &[T], b: &[T]| (a@, b@) == offered ==> #[trigger] consumer.requires((a, b))
}

/// On slices that hold the two parts of `offered`, the consumer never says it used more items
/// than it was given.
pub open spec fn uses_within<T, U, F: FnOnce(&[T], &[T]) -> (U, usize)>(
    consumer: F,
    offered: (Seq<T>, Seq<T>),
) -> bool {
    forall|a: &[T], b: &[T], res: (U, usize)|
        (a@, b@) == offered && #[trigger] consumer.ensures((a, b), res) ==> res.1 <= a@.len()
            + b@.len()
}

/// The consumer was offered the window of a pop of `count` items from `before` (oldest slot
/// `head` of `n`), answered `value` having used `used` items, and the used items are gone.
pub open spec fn popped<T, U, F: FnOnce(&[T], &[T]) -> (U, usize)>(
    before: Seq<T>,
    head: nat,
    n: nat,
    count: nat,
    consumer: F,
    value: U,
    after: Seq<T>,
    after_head: nat,
) -> bool {
    exists|a: &[T], b: &[T], used: usize|
        {
            &&& (a@, b@) == window(before, head, n, count)
            &&& #[trigger] consumer.ensures((a, b), (value, used))
            &&& after == before.skip(used as int)
            &&& after_head == (head + used) % (n as int)
        }
}

impl<T: Copy, const N: usize> BlockingRingBuffer<T, N> {
    /// The slots are consistent: head and length within the capacity, and until every slot is
    /// allocated the live items end at the last allocated slot.
    pub closed spec fn wf(&self) -> bool {
        &&& N > 0
        &&& N <= usize::MAX / 2
        &&& self.head < N
        &&& self.len <= N
        &&& self.buffer@.len() <= N
        &&& self.buffer@.len() < N ==> self.head + self.len == self.buffer@.len()
    }

    /// The slot of the oldest item.
    pub closed spec fn head_index(&self) -> nat {
        self.head as nat
    }

    /// The push-blocking size.
    pub closed spec fn spec_push_blocking_size(&self) -> nat {
        self.push_blocking_size as nat
    }

    proof fn lemma_live_slot(&self, k: int)
        requires
            self.wf(),
            0 <= k < self.len,
        ensures
            (self.head + k) % (N as int) < self.buffer@.len(),
    {
        lemma_mod_bound(self.head + k, N as int);
        if self.buffer@.len() < N {
            lemma_small_mod((self.head + k) as nat, N as nat);
        }
    }

    /// What a pop of `count` items offers is a prefix of the items, of at least `count` of them
    /// where there are that many, and its first part is not empty when anything is offered.
    pub proof fn lemma_offered_window(&self, count: nat)
        requires
            self.wf(),
            self.head_index() >= (self.head_index() + self@.len()) % (N as nat) ==> count
                <= self@.len(),
        ensures
            ({
                let w = window(self@, self.head_index(), N as nat, count);
                &&& w.0 + w.1 == self@.take((w.0 + w.1).len() as int)
                &&& (w.0 + w.1).len() <= self@.len()
                &&& (w.0 + w.1).len() >= min_nat(count, self@.len())
                &&& count > 0 && self@.len() > 0 ==> w.0.len() > 0
            }),
    {
        lemma_window_is_prefix(self@, self.head_index(), N as nat, count);
    }

    /// An empty buffer.
    pub fn new() -> (r: Self)
        requires
            0 < N <= usize::MAX / 2,
        ensures
            r.wf(),
            r@ == Seq::<T>::empty(),
            r.head_index() == 0,
            r.spec_push_blocking_size() == DEFAULT_PUSH_BLOCKING_SIZE,
    {
        let r = BlockingRingBuffer {
            buffer: Vec::new(),
            head: 0,
            len: 0,
            push_blocking_size: DEFAULT_PUSH_BLOCKING_SIZE,
        };
        assert(r@ =~= Seq::<T>::empty());
        r
    }

    /// Number of items in the buffer.
    pub fn len(&self) -> (r: usize)
        ensures
            r == self@.len(),
    {
        self.len
    }

    /// Number of slots.
    pub fn capacity(&self) -> (r: usize)
        ensures
            r == N,
    {
        N
    }

    /// The push-blocking size.
    pub fn push_blocking_size(&self) -> (r: usize)
        ensures
            r == self.spec_push_blocking_size(),
    {
        self.push_blocking_size
    }

    /// Appends `items` after the newest item.
    pub fn push_blocking(&mut self, items: &[T])
        requires
            old(self).wf(),
            old(self)@.len() + items@.len() <= N,
        ensures
            final(self).wf(),
            final(self)@ == old(self)@ + items@,
            final(self).head_index() == old(self).head_index(),
            final(self).spec_push_blocking_size() == old(self).spec_push_blocking_size(),
    {
        let ghost old_view = self@;
        let mut i: usize = 0;
        while i < items.len()
            invariant
                self.wf(),
                self.head == old(self).head,
                self.push_blocking_size == old(self).push_blocking_size,
                i <= items@.len(),
                self.len == old_view.len() + i,
                old_view.len() + items@.len() <= N,
                self@ =~= old_view + items@.take(i as int),
            decreases items@.len() - i,
        {
            let tail = (self.head + self.len) % N;
            let ghost before = self@;
            let ghost old_buf = self.buffer@;
            assert forall|k: int| 0 <= k < self.len implies (#[trigger] slot_of(self.head, k, N)
                < old_buf.len() && slot_of(self.head, k, N) != tail) by {
                self.lemma_live_slot(k);
                lemma_mod_distinct(self.head + k, self.head + self.len, N as int);
            }
            if self.buffer.len() < N {
                proof {
                    lemma_small_mod((self.head + self.len) as nat, N as nat);
                }
                self.buffer.push(items[i]);
            } else {
                proof {
                    lemma_mod_bound(self.head + self.len, N as int);
                }
                self.buffer.set(tail, items[i]);
            }
            self.len = self.len + 1;
            i += 1;
            assert forall|k: int| 0 <= k < before.len() implies #[trigger] self@[k] == before[k] by {
                assert(slot_of(self.head, k, N) < old_buf.len());
                assert(self.buffer@[(self.head + k) % (N as int)] == old_buf[(self.head + k) % (
                N as int)]);
            }
            assert(self@ =~= old_view + items@.take(i as int));
        }
        assert(items@.take(items@.len() as int) =~= items@);
    }

    /// The slots of the live items: the oldest `count` (or, when they do not wrap, all of them)
    /// in up to two parts.
    pub fn peek_window(&self, count: usize) -> (r: (Vec<T>, Vec<T>))
        requires
            self.wf(),
            self.head_index() >= (self.head_index() + self@.len()) % (N as nat) ==> count
                <= self@.len(),
        ensures
            (r.0@, r.1@) == window(self@, self.head_index(), N as nat, count as nat),
    {
        let tail = (self.head + self.len) % N;
        let mut first: Vec<T> = Vec::new();
        let mut second: Vec<T> = Vec::new();
        let first_len = if self.head < tail {
            self.len
        } else if N - self.head >= count {
            count
        } else {
            N - self.head
        };
        let second_len = if self.head < tail || N - self.head >= count {
            0
        } else {
            count - (N - self.head)
        };
        let mut i: usize = 0;
        while i < first_len + second_len
            invariant
                self.wf(),
                first_len + second_len <= self@.len(),
                i <= first_len + second_len,
                i <= first_len ==> first@ =~= self@.take(i as int) && second@.len() == 0,
                i > first_len ==> first@ =~= self@.take(first_len as int) && second@ =~= self@.subrange(
                    first_len as int,
                    i as int,
                ),
            decreases first_len + second_len - i,
        {
            let slot = (self.head + i) % N;
            proof {
                self.lemma_live_slot(i as int);
            }
            if i < first_len {
                first.push(self.buffer[slot]);
            } else {
                second.push(self.buffer[slot]);
            }
            i += 1;
        }
        (first, second)
    }

    /// Drops the oldest `count` items.
    pub fn consume(&mut self, count: usize)
        requires
            old(self).wf(),
            count <= old(self)@.len(),
        ensures
            final(self).wf(),
            final(self)@ == old(self)@.skip(count as int),
            final(self).head_index() == (old(self).head_index() + count) % (N as int),
            final(self).spec_push_blocking_size() == old(self).spec_push_blocking_size(),
    {
        let ghost old_view = self@;
        let old_head = self.head;
        self.head = (self.head + count) % N;
        self.len = self.len - count;
        assert forall|k: int| 0 <= k < self.len implies #[trigger] self@[k] == old_view[k
            + count] by {
            lemma_add_mod_noop_right(k, old_head + count, N as int);
        }
        assert(self@ =~= old_view.skip(count as int));
        proof {
            if self.buffer@.len() < N {
                assert(old_head + count < N);
                assert((old_head + count) % (N as int) == old_head + count) by (nonlinear_arith)
                    requires
                        0 <= old_head + count < N,
                ;
            }
        }
    }

    /// Offers the consumer the window of a pop of `count` items and drops as many items as the
    /// consumer says it used.
    pub fn pop_blocking<U, F: FnOnce(&[T], &[T]) -> (U, usize)>(
        &mut self,
        count: usize,
        consumer: F,
    ) -> (r: U)
        requires
            old(self).wf(),
            old(self).head_index() >= (old(self).head_index() + old(self)@.len()) % (N as nat)
                ==> count <= old(self)@.len(),
            accepts(consumer, window(old(self)@, old(self).head_index(), N as nat, count as nat)),
            uses_within(
                consumer,
                window(old(self)@, old(self).head_index(), N as nat, count as nat),
            ),
        ensures
            final(self).wf(),
            final(self).spec_push_blocking_size() == old(self).spec_push_blocking_size(),
            popped(
                old(self)@,
                old(self).head_index(),
                N as nat,
                count as nat,
                consumer,
                r,
                final(self)@,
                final(self).head_index(),
            ),
    {
        let (first, second) = self.peek_window(count);
        let a = first.as_slice();
        let b = second.as_slice();
        let (value, used) = consumer(a, b);
        proof {
            lemma_window_is_prefix(self@, self.head_index(), N as nat, count as nat);
        }
        self.consume(used);
        assert(consumer.ensures((a, b), (value, used)));
        value
    }

    /// Pops `count` items, topping up with `padding` when fewer are buffered. With enough items
    /// this is `pop_blocking`; otherwise the consumer gets all buffered items and at most
    /// `count - len` items of `padding`, and every buffered item is dropped whatever the consumer
    /// says. Either way the push-blocking size grows to twice `count` (it is first set from
    /// `count` when still at its default).
    pub fn must_pop<U, F: FnOnce(&[T], &[T]) -> (U, usize)>(
        &mut self,
        count: usize,
        consumer: F,
        padding: &[T],
    ) -> (r: U)
        requires
            old(self).wf(),
            count <= usize::MAX / 2,
            count <= old(self)@.len() ==> accepts(
                consumer,
                window(old(self)@, old(self).head_index(), N as nat, count as nat),
            ),
            count <= old(self)@.len() ==> uses_within(
                consumer,
                window(old(self)@, old(self).head_index(), N as nat, count as nat),
            ),
            count > old(self)@.len() ==> accepts(
                consumer,
                (
                    old(self)@,
                    padding@.take(min_nat((count - old(self)@.len()) as nat, padding@.len()) as int),
                ),
            ),
        ensures
            final(self).wf(),
            final(self).spec_push_blocking_size() == next_push_blocking_size(
                old(self).spec_push_blocking_size(),
                count as nat,
            ),
            count <= old(self)@.len() ==> popped(
                old(self)@,
                old(self).head_index(),
                N as nat,
                count as nat,
                consumer,
                r,
                final(self)@,
                final(self).head_index(),
            ),
            count > old(self)@.len() ==> exists|a: &[T], b: &[T], used: usize|
                {
                    &&& a@ == old(self)@
                    &&& b@ == padding@.take(
                        min_nat((count - old(self)@.len()) as nat, padding@.len()) as int,
                    )
                    &&& #[trigger] consumer.ensures((a, b), (r, used))
                    &&& final(self)@ == Seq::<T>::empty()
                    &&& final(self).head_index() == (old(self).head_index() + old(self)@.len())
                        % (N as nat)
                },
    {
        let len = self.len;
        let result = if count <= len {
            self.pop_blocking(count, consumer)
        } else {
            let (first, second) = self.peek_window(len);
            proof {
                lemma_window_is_prefix(self@, self.head_index(), N as nat, len as nat);
            }
            let mut data = first;
            let mut rest = second;
            data.append(&mut rest);
            assert(data@ =~= self@);
            let wanted = count - len;
            let take = if wanted <= padding.len() {
                wanted
            } else {
                padding.len()
            };
            let pad = vstd::slice::slice_subrange(padding, 0, take);
            let a = data.as_slice();
            let (value, used) = consumer(a, pad);
            self.consume(len);
            assert(self@ =~= Seq::<T>::empty());
            assert(a@ == old(self)@ && pad@ == padding@.take(
                min_nat((count - old(self)@.len()) as nat, padding@.len()) as int,
            ) && consumer.ensures((a, pad), (value, used)));
            value
        };
        self.push_blocking_size = if self.push_blocking_size == DEFAULT_PUSH_BLOCKING_SIZE && count
            > 0 {
            count * 2
        } else if self.push_blocking_size >= count * 2 {
            self.push_blocking_size
        } else {
            count * 2
        };
        result
    }

    /// A push of `required` items may go ahead: there is room for them and the buffer holds
    /// fewer items than the push-blocking size.
    pub fn can_push(&self, required: usize) -> (r: bool)
        requires
            self.wf(),
        ensures
            r == (N - self@.len() >= required && self@.len() < self.spec_push_blocking_size()),
    {
        N - self.len >= required && self.len < self.push_blocking_size
    }

    /// A pop of `required` items may go ahead: that many items are buffered.
    pub fn can_pop(&self, required: usize) -> (r: bool)
        ensures
            r == (self@.len() >= required),
    {
        self.len >= required
    }
}


pub open spec fn min_nat(a: nat, b: nat) -> nat {
    if a <= b {
        a
    } else {
        b
    }
}

/// Law (first in, first out): a pop offers a prefix of the buffered items, in order, of at least
/// the asked-for length when that many are buffered.
pub proof fn lemma_window_is_prefix<T>(contents: Seq<T>, head: nat, n: nat, count: nat)
    requires
        n > 0,
        head < n,
        contents.len() <= n,
        head >= (head + contents.len()) % n ==> count <= contents.len(),
    ensures
        ({
            let w = window(contents, head, n, count);
            &&& w.0 + w.1 == contents.take((w.0 + w.1).len() as int)
            &&& (w.0 + w.1).len() <= contents.len()
            &&& (w.0 + w.1).len() >= min_nat(count, contents.len())
            &&& count > 0 && contents.len() > 0 ==> w.0.len() > 0
        }),
{
    let w = window(contents, head, n, count);
    if head < (head + contents.len()) % n {
        assert(w.0 + w.1 =~= contents.take(contents.len() as int));
    } else if n - head >= count {
        assert(w.0 + w.1 =~= contents.take(count as int));
    } else {
        assert(w.0 + w.1 =~= contents.take(count as int));
    }
}

/// A buffer that producers and consumers share (the locking and waking around it are the
/// caller's).
pub struct RingBuffer<T, const N: usize>(pub BlockingRingBuffer<T, N>);

impl<T: Copy, const N: usize> RingBuffer<T, N> {
    /// An empty buffer.
    pub fn new() -> (r: Self)
        requires
            0 < N <= usize::MAX / 2,
        ensures
            r.0.wf(),
            r.0@ == Seq::<T>::empty(),
            r.0.spec_push_blocking_size() == DEFAULT_PUSH_BLOCKING_SIZE,
    {
        RingBuffer(BlockingRingBuffer::new())
    }

    /// See `BlockingRingBuffer::must_pop`.
    pub fn must_pop<U, F: FnOnce(&[T], &[T]) -> (U, usize)>(
        &mut self,
        count: usize,
        consumer: F,
        padding: &[T],
    ) -> (r: U)
        requires
            old(self).0.wf(),
            count <= usize::MAX / 2,
            count <= old(self).0@.len() ==> accepts(
                consumer,
                window(old(self).0@, old(self).0.head_index(), N as nat, count as nat),
            ),
            count <= old(self).0@.len() ==> uses_within(
                consumer,
                window(old(self).0@, old(self).0.head_index(), N as nat, count as nat),
            ),
            count > old(self).0@.len() ==> accepts(
                consumer,
                (
                    old(self).0@,
                    padding@.take(min_nat((count - old(self).0@.len()) as nat, padding@.len()) as int),
                ),
            ),
        ensures
            final(self).0.wf(),
            final(self).0.spec_push_blocking_size() == next_push_blocking_size(
                old(self).0.spec_push_blocking_size(),
                count as nat,
            ),
            count <= old(self).0@.len() ==> popped(
                old(self).0@,
                old(self).0.head_index(),
                N as nat,
                count as nat,
                consumer,
                r,
                final(self).0@,
                final(self).0.head_index(),
            ),
            count > old(self).0@.len() ==> exists|a: &[T], b: &[T], used: usize|
                {
                    &&& a@ == old(self).0@
                    &&& b@ == padding@.take(
                        min_nat((count - old(self).0@.len()) as nat, padding@.len()) as int,
                    )
                    &&& #[trigger] consumer.ensures((a, b), (r, used))
                    &&& final(self).0@ == Seq::<T>::empty()
                },
    {
        self.0.must_pop(count, consumer, padding)
    }

    /// Number of buffered items.
    pub fn len(&self) -> (r: usize)
        ensures
            r == self.0@.len(),
    {
        self.0.len()
    }

    /// One poll of a pending push: pushes `items` and returns `true` when the push may go
    /// ahead, and otherwise changes nothing and returns `false`.
    pub fn poll_push(&mut self, items: &[T]) -> (r: bool)
        requires
            old(self).0.wf(),
        ensures
            final(self).0.wf(),
            r == (N - old(self).0@.len() >= items@.len() && old(self).0@.len()
                < old(self).0.spec_push_blocking_size()),
            r ==> final(self).0@ == old(self).0@ + items@,
            !r ==> final(self).0@ == old(self).0@,
            final(self).0.spec_push_blocking_size() == old(self).0.spec_push_blocking_size(),
    {
        if self.0.can_push(items.len()) {
            self.0.push_blocking(items);
            true
        } else {
            false
        }
    }

    /// One poll of a pending pop of `count` items: pops them (as `pop_blocking`) when that many
    /// are buffered, and otherwise changes nothing and returns `None`.
    pub fn poll_pop<U, F: FnOnce(&[T], &[T]) -> (U, usize)>(&mut self, count: usize, consumer: F) -> (r:
        Option<U>)
        requires
            old(self).0.wf(),
            count <= old(self).0@.len() ==> accepts(
                consumer,
                window(old(self).0@, old(self).0.head_index(), N as nat, count as nat),
            ),
            count <= old(self).0@.len() ==> uses_within(
                consumer,
                window(old(self).0@, old(self).0.head_index(), N as nat, count as nat),
            ),
        ensures
            final(self).0.wf(),
            (r is Some) == (old(self).0@.len() >= count),
            r is None ==> final(self).0@ == old(self).0@,
            r matches Some(v) ==> popped(
                old(self).0@,
                old(self).0.head_index(),
                N as nat,
                count as nat,
                consumer,
                v,
                final(self).0@,
                final(self).0.head_index(),
            ),
    {
        if self.0.can_pop(count) {
            let v = self.0.pop_blocking(count, consumer);
            Some(v)
        } else {
            None
        }
    }
}
} // verus!
