use crate::heap_order::{heap_from, is_heap, lemma_heap_top, sift_down, sift_up, MAX_HEAP_LEN};
use crate::order::{le, total_order};
use vstd::multiset::Multiset;
use vstd::prelude::*;

verus! {

/// A priority queue whose top is a smallest element, kept as a min-heap in a `Vec`.
pub struct MinHeap<T: Ord> {
    heap: Vec<T>,
}

impl<T: Ord> View for MinHeap<T> {
    type V = Multiset<T>;

    closed spec fn view(&self) -> Multiset<T> {
        self.heap@.to_multiset()
    }
}

impl<T: Ord> MinHeap<T> {
    /// The elements are in min-heap order and few enough to index.
    pub closed spec fn wf(&self) -> bool {
        &&& is_heap(self.heap@, self.heap@.len() as int, false)
        &&& self.heap@.len() <= MAX_HEAP_LEN
    }

    /// An empty heap.
    pub fn new() -> (h: MinHeap<T>)
        ensures
            h.wf(),
            h@ == Multiset::<T>::empty(),
    {
        proof {
            broadcast use vstd::seq_lib::group_to_multiset_ensures;
            assert(Seq::<T>::empty().to_multiset().len() == 0);
        }
        MinHeap { heap: Vec::new() }
    }

    /// A heap of the elements of `xs`, in place of what this one held.
    pub fn init(self, xs: Vec<T>) -> (h: MinHeap<T>)
        requires
            total_order::<T>(),
            xs@.len() <= MAX_HEAP_LEN,
        ensures
            h.wf(),
            h@ == xs@.to_multiset(),
    {
        let mut h = self;
        h.heap = xs;
        let n = h.heap.len();
        let mut i: usize = n;
        while i > 0
            invariant
                total_order::<T>(),
                n == h.heap@.len(),
                n <= MAX_HEAP_LEN,
                i <= n,
                heap_from(h.heap@, i as int, n as int, false),
                h.heap@.to_multiset() == xs@.to_multiset(),
            decreases i,
        {
            i = i - 1;
            let ghost before = h.heap@;
            h.sink(i);
            proof {
                assert(h.heap@.subrange(0, n as int) =~= h.heap@);
                assert(before.subrange(0, n as int) =~= before);
            }
        }
        h
    }

    /// Whether the heap holds no element.
    pub fn is_empty(&self) -> (r: bool)
        ensures
            r == (self@.len() == 0),
    {
        proof {
            broadcast use vstd::seq_lib::group_to_multiset_ensures;
        }
        self.heap.len() == 0
    }

    /// The number of elements.
    pub fn len(&self) -> (r: usize)
        ensures
            r == self@.len(),
    {
        proof {
            broadcast use vstd::seq_lib::group_to_multiset_ensures;
        }
        self.heap.len()
    }

    /// A smallest element, if any.
    pub fn min(&self) -> (r: Option<&T>)
        requires
            total_order::<T>(),
            self.wf(),
        ensures
            r.is_none() == (self@.len() == 0),
            r.is_some() ==> self@.contains(*r.unwrap()),
            r.is_some() ==> forall|x: T| self@.contains(x) ==> le(*r.unwrap(), x),
    {
        proof {
            broadcast use vstd::seq_lib::group_to_multiset_ensures;
        }
        if self.heap.len() == 0 {
            None
        } else {
            proof {
                self.lemma_top_is_smallest();
            }
            Some(&self.heap[0])
        }
    }

    /// Removes and returns a smallest element, if any.
    pub fn pop_min(&mut self) -> (r: Option<T>)
        requires
            total_order::<T>(),
            old(self).wf(),
        ensures
            final(self).wf(),
            r.is_none() == (old(self)@.len() == 0),
            r.is_none() ==> final(self)@ == old(self)@,
            r.is_some() ==> old(self)@.contains(r.unwrap()),
            r.is_some() ==> forall|x: T| old(self)@.contains(x) ==> le(r.unwrap(), x),
            r.is_some() ==> final(self)@ == old(self)@.remove(r.unwrap()),
    {
        broadcast use vstd::seq_lib::group_to_multiset_ensures;
        broadcast use vstd::multiset::group_multiset_axioms;

        if self.heap.len() == 0 {
            return None;
        }
        proof {
            self.lemma_top_is_smallest();
        }
        let ghost s = self.heap@;
        let top = self.heap.swap_remove(0);
        proof {
            let u = s.update(0, s.last());
            let last = s.last();
            vstd::seq_lib::to_multiset_update(s, 0, last);
            assert(u =~= u.drop_last().push(u.last()));
            assert(u.last() == last);
            vstd::seq_lib::to_multiset_build(u.drop_last(), last);
            assert(s[0] == top);
            vstd::seq_lib::to_multiset_contains(s, top);
            assert(s.to_multiset().count(top) > 0);
            let m = self.heap@.to_multiset();
            assert(m.insert(last) == s.to_multiset().insert(last).remove(top));
            assert forall|y: T| #[trigger] m.count(y) == s.to_multiset().remove(top).count(y) by {
                assert(m.insert(last).count(y) == s.to_multiset().insert(last).remove(top).count(y));
            }
            assert(m =~= s.to_multiset().remove(top));
        }
        if self.heap.len() > 0 {
            self.sink(0);
            proof {
                let n = self.heap@.len() as int;
                assert(self.heap@.subrange(0, n) =~= self.heap@);
            }
        }
        Some(top)
    }

    /// Adds an element.
    pub fn push(&mut self, x: T)
        requires
            total_order::<T>(),
            old(self).wf(),
            old(self)@.len() < MAX_HEAP_LEN,
        ensures
            final(self).wf(),
            final(self)@ == old(self)@.insert(x),
    {
        broadcast use vstd::seq_lib::group_to_multiset_ensures;

        self.heap.push(x);
        let n = self.heap.len();
        let ghost pushed = self.heap@;
        proof {
            assert(pushed =~= old(self).heap@.push(x));
            vstd::seq_lib::to_multiset_build(old(self).heap@, x);
        }
        self.swim(n - 1);
        proof {
            assert(self.heap@.subrange(0, n as int) =~= self.heap@);
            assert(pushed.subrange(0, n as int) =~= pushed);
        }
    }

    /// Moves the element at `i` down to its place below.
    fn sink(&mut self, i: usize)
        requires
            total_order::<T>(),
            i < old(self).heap@.len() <= MAX_HEAP_LEN,
            heap_from(old(self).heap@, i + 1, old(self).heap@.len() as int, false),
        ensures
            final(self).heap@.len() == old(self).heap@.len(),
            heap_from(final(self).heap@, i as int, final(self).heap@.len() as int, false),
            final(self).heap@.to_multiset() == old(self).heap@.to_multiset(),
    {
        let n = self.heap.len();
        let ghost before = self.heap@;
        sift_down(self.heap.as_mut_slice(), i, n, false);
        proof {
            assert(self.heap@.subrange(0, n as int) =~= self.heap@);
            assert(before.subrange(0, n as int) =~= before);
        }
    }

    /// Moves the element at `i` up to its place above.
    fn swim(&mut self, i: usize)
        requires
            total_order::<T>(),
            i == old(self).heap@.len() - 1,
            old(self).heap@.len() <= MAX_HEAP_LEN,
            is_heap(old(self).heap@, i as int, false),
        ensures
            final(self).heap@.len() == old(self).heap@.len(),
            is_heap(final(self).heap@, final(self).heap@.len() as int, false),
            final(self).heap@.subrange(0, i + 1).to_multiset() == old(self).heap@.subrange(0, i + 1).to_multiset(),
    {
        let n = self.heap.len();
        sift_up(self.heap.as_mut_slice(), i, n, false);
    }

    proof fn lemma_top_is_smallest(&self)
        requires
            total_order::<T>(),
            self.wf(),
            self.heap@.len() > 0,
        ensures
            self@.contains(self.heap@[0]),
            forall|x: T| self@.contains(x) ==> le(self.heap@[0], x),
    {
        broadcast use vstd::seq_lib::group_to_multiset_ensures;

        let s = self.heap@;
        assert(s.contains(s[0]));
        assert forall|x: T| self@.contains(x) implies le(s[0], x) by {
            vstd::seq_lib::to_multiset_contains(s, x);
            let k = choose|k: int| 0 <= k < s.len() && s[k] == x;
            lemma_heap_top(s, s.len() as int, false, k);
        }
    }
}

} // verus!
