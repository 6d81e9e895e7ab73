//! A binary min-heap of integers stored in a vector.
use vstd::prelude::*;
use vstd::seq_lib::group_to_multiset_ensures;
use crate::arrays::{lemma_update_multiset, swap};

verus! {

/// The position of the parent of position `i` (for `i > 0`).
pub open spec fn parent_of(i: int) -> int {
    (i - 1) / 2
}

/// Each element below the root is at least its parent.
pub open spec fn heap_ordered(s: Seq<i64>) -> bool {
    forall|i: int| 0 < i < s.len() ==> s[parent_of(i)] <= #[trigger] s[i]
}

/// The root of a heap-ordered sequence is its least element.
pub proof fn lemma_root_is_least(s: Seq<i64>, i: int)
    requires
        heap_ordered(s),
        0 <= i < s.len(),
    ensures
        s[0] <= s[i],
    decreases i,
{
    if i > 0 {
        lemma_root_is_least(s, parent_of(i));
    }
}

/// The elements of the heap are `data[..length]`; the first is the least.
pub struct MinHeap<T> {
    pub length: usize,
    pub data: Vec<T>,
}

impl MinHeap<i64> {
    pub open spec fn inv(&self) -> bool {
        &&& self.data@.len() == self.length
        &&& heap_ordered(self.data@)
    }

    /// Empties the heap.
    pub fn new(&mut self)
        ensures
            final(self).inv(),
            final(self).length == 0,
    {
        self.length = 0;
        self.data = Vec::new();
    }

    /// Adds `value`, letting it rise past the parents larger than it.
    pub fn insert(&mut self, value: i64)
        requires
            old(self).inv(),
        ensures
            final(self).inv(),
            final(self).length == old(self).length + 1,
            final(self).data@.to_multiset() == old(self).data@.to_multiset().insert(value),
    {
        self.data.push(value);
        let idx = self.length;
        self.length = self.data.len();
        proof {
            assert forall|i: int| 0 < i < self.length && i != idx implies self.data@[parent_of(i)]
                <= #[trigger] self.data@[i] by {
                assert(old(self).data@[i] == self.data@[i]);
            }
            vstd::seq_lib::to_multiset_build(old(self).data@, value);
        }
        self.heapify_up(idx);
    }

    /// Takes out and returns the least element; the last element takes its
    /// place and sinks past the children smaller than it.
    pub fn delete(&mut self) -> (r: i64)
        requires
            old(self).inv(),
            old(self).length > 0,
        ensures
            final(self).inv(),
            final(self).length == old(self).length - 1,
            r == old(self).data@[0],
            forall|i: int| 0 <= i < old(self).length ==> r <= #[trigger] old(self).data@[i],
            final(self).data@.to_multiset() == old(self).data@.to_multiset().remove(r),
    {
        proof {
            broadcast use group_to_multiset_ensures;

            assert forall|i: int| 0 <= i < old(self).length implies old(self).data@[0]
                <= #[trigger] old(self).data@[i] by {
                lemma_root_is_least(old(self).data@, i);
            }
        }
        let val = self.data[0];
        if self.length == 1 {
            self.data = Vec::new();
            self.length = 0;
            proof {
                assert(old(self).data@ =~= seq![val]);
                assert(old(self).data@.drop_last() =~= Seq::<i64>::empty());
            }
            return val;
        }
        let last = self.data[self.length - 1];
        let ghost s0 = self.data@;
        self.data.set(0, last);
        let ghost s1 = self.data@;
        self.data.pop();
        self.length = self.length - 1;
        proof {
            lemma_update_multiset(s0, 0, last);
            assert(s1.remove(s1.len() - 1) =~= s1.drop_last());
            assert(self.data@ =~= s1.drop_last());
            assert(s1.to_multiset().remove(last) =~= s0.to_multiset().remove(val));
            assert forall|i: int| 0 < i < self.length && parent_of(i) != 0 implies self.data@[parent_of(
                i,
            )] <= #[trigger] self.data@[i] by {
                assert(s0[parent_of(i)] <= s0[i]);
            }
        }
        self.heapify_down(0);
        val
    }

    /// Swaps the element at `idx` with its parent while the parent is larger.
    fn heapify_up(&mut self, idx: usize)
        requires
            old(self).data@.len() == old(self).length,
            idx < old(self).length,
            forall|i: int|
                0 < i < old(self).length && i != idx ==> old(self).data@[parent_of(i)]
                    <= #[trigger] old(self).data@[i],
            idx > 0 ==> forall|i: int|
                0 < i < old(self).length && parent_of(i) == idx ==> old(self).data@[parent_of(
                    idx as int,
                )] <= #[trigger] old(self).data@[i],
        ensures
            final(self).inv(),
            final(self).length == old(self).length,
            final(self).data@.to_multiset() == old(self).data@.to_multiset(),
        decreases idx,
    {
        if idx == 0 {
            return;
        }
        let parent_idx = self.parent(idx);
        let parent_val = self.data[parent_idx];
        let curr_val = self.data[idx];
        if parent_val > curr_val {
            let ghost s = self.data@;
            swap(&mut self.data, parent_idx, idx);
            proof {
                let t = self.data@;
                let p = parent_idx as int;
                assert forall|i: int| 0 < i < self.length && i != p implies t[parent_of(i)]
                    <= #[trigger] t[i] by {
                    if i == idx {
                    } else if parent_of(i) == idx {
                        assert(s[p] <= s[i]);
                    } else if parent_of(i) == p {
                        assert(s[p] <= s[i]);
                    } else if i != p {
                        assert(s[parent_of(i)] <= s[i]);
                    }
                }
                assert forall|i: int| 0 < i < self.length && parent_of(i) == p && p > 0 implies t[parent_of(
                    p,
                )] <= #[trigger] t[i] by {
                    assert(s[parent_of(p)] <= s[p]);
                    if i != idx {
                        assert(s[p] <= s[i]);
                    }
                }
            }
            self.heapify_up(parent_idx);
        }
    }

    /// Swaps the element at `idx` with its smaller child while that child is
    /// smaller than it.
    fn heapify_down(&mut self, idx: usize)
        requires
            old(self).data@.len() == old(self).length,
            idx < old(self).length,
            forall|i: int|
                0 < i < old(self).length && parent_of(i) != idx ==> old(self).data@[parent_of(i)]
                    <= #[trigger] old(self).data@[i],
            idx > 0 ==> forall|i: int|
                0 < i < old(self).length && parent_of(i) == idx ==> old(self).data@[parent_of(
                    idx as int,
                )] <= #[trigger] old(self).data@[i],
        ensures
            final(self).inv(),
            final(self).length == old(self).length,
            final(self).data@.to_multiset() == old(self).data@.to_multiset(),
        decreases old(self).length - idx,
    {
        if idx >= self.length / 2 {
            assert forall|i: int| 0 < i < self.length implies parent_of(i) != idx by {}
            return;
        }
        let left_idx = self.left_child(idx);
        let right_idx = self.right_child(idx);
        let min_idx = if right_idx < self.length && self.data[right_idx] < self.data[left_idx] {
            right_idx
        } else {
            left_idx
        };
        let min_val = self.data[min_idx];
        let curr_val = self.data[idx];
        if min_val < curr_val {
            let ghost s = self.data@;
            swap(&mut self.data, min_idx, idx);
            proof {
                let t = self.data@;
                let m = min_idx as int;
                assert forall|i: int| 0 < i < self.length && parent_of(i) == idx implies s[m] <= s[i] by {
                    assert(i == left_idx || i == right_idx);
                }
                assert forall|i: int| 0 < i < self.length && parent_of(i) != m implies t[parent_of(i)]
                    <= #[trigger] t[i] by {
                    if i == m {
                    } else if parent_of(i) == idx {
                        assert(s[m] <= s[i]);
                    } else if i == idx {
                        assert(s[parent_of(i)] <= s[i]);
                    } else {
                        assert(s[parent_of(i)] <= s[i]);
                    }
                }
                assert forall|i: int| 0 < i < self.length && parent_of(i) == m implies t[parent_of(
                    m,
                )] <= #[trigger] t[i] by {
                    assert(s[m] <= s[i]);
                }
            }
            self.heapify_down(min_idx);
        } else {
            proof {
                assert forall|i: int| 0 < i < self.length && parent_of(i) == idx implies self.data@[idx as int]
                    <= #[trigger] self.data@[i] by {
                    assert(i == left_idx || i == right_idx);
                }
            }
        }
    }

    fn parent(&self, idx: usize) -> (r: usize)
        requires
            idx > 0,
        ensures
            r == parent_of(idx as int),
            r < idx,
    {
        (idx - 1) / 2
    }

    fn left_child(&self, idx: usize) -> (r: usize)
        requires
            idx < self.length / 2,
        ensures
            r == 2 * idx + 1,
            parent_of(r as int) == idx,
            r < self.length,
    {
        idx * 2 + 1
    }

    fn right_child(&self, idx: usize) -> (r: usize)
        requires
            idx < self.length / 2,
        ensures
            r == 2 * idx + 2,
            parent_of(r as int) == idx,
            r <= self.length,
    {
        idx * 2 + 2
    }
}

} // verus!
