//! A doubly linked recency list whose entries live in an arena and are
//! addressed by handles (indices into the arena).
use vstd::prelude::*;

verus! {

/// One cached record: its key, its value and its two links in the list.
#[derive(Clone, Copy)]
pub struct Entry {
    pub key: i64,
    pub value: i64,
    pub next: Option<usize>,
    pub prev: Option<usize>,
}

/// Entries ordered from most recently used (head) to least recently used (tail).
///
/// Slots of evicted entries are kept in `free` and handed out again.
pub struct RecencyList {
    entries: Vec<Entry>,
    free: Vec<usize>,
    head: Option<usize>,
    tail: Option<usize>,
    order: Ghost<Seq<usize>>,
}

impl RecencyList {
    /// The handles of the listed entries, head first.
    pub closed spec fn order(&self) -> Seq<usize> {
        self.order@
    }

    pub closed spec fn key_at(&self, h: usize) -> i64 {
        self.entries@[h as int].key
    }

    pub closed spec fn value_at(&self, h: usize) -> i64 {
        self.entries@[h as int].value
    }

    /// A slot that holds an entry: allocated and not on the free list.
    pub closed spec fn in_use(&self, h: usize) -> bool {
        h < self.entries@.len() && !self.free@.contains(h)
    }

    /// The listed pairs (key, value), most recently used first.
    pub closed spec fn view(&self) -> Seq<(i64, i64)> {
        self.order@.map_values(|h: usize| (self.entries@[h as int].key, self.entries@[h as int].value))
    }

    pub closed spec fn wf(&self) -> bool {
        let order = self.order@;
        let n = order.len();
        &&& order.no_duplicates()
        &&& self.free@.no_duplicates()
        &&& forall|j: int| 0 <= j < self.free@.len() ==> self.free@[j] < self.entries@.len()
        &&& forall|i: int| 0 <= i < n ==> #[trigger] self.in_use(order[i])
        &&& self.head == (if n == 0 { None } else { Some(order[0]) })
        &&& self.tail == (if n == 0 { None } else { Some(order[n - 1]) })
        &&& forall|i: int|
            0 <= i < n ==> (#[trigger] self.entries@[order[i] as int]).prev == (if i == 0 {
                None
            } else {
                Some(order[i - 1])
            })
        &&& forall|i: int|
            0 <= i < n ==> (#[trigger] self.entries@[order[i] as int]).next == (if i == n - 1 {
                None
            } else {
                Some(order[i + 1])
            })
    }

    /// What a well-formed list shows of itself: no handle twice, and every
    /// listed handle names a slot in use.
    pub proof fn lemma_wf(&self)
        requires
            self.wf(),
        ensures
            self.order().no_duplicates(),
            forall|i: int| 0 <= i < self.order().len() ==> #[trigger] self.in_use(self.order()[i]),
    {
    }

    pub proof fn lemma_view(&self)
        ensures
            self@.len() == self.order().len(),
            forall|i: int|
                0 <= i < self.order().len() ==> #[trigger] self@[i] == (
                    self.key_at(self.order()[i]),
                    self.value_at(self.order()[i]),
                ),
    {
    }

    pub fn new() -> (l: RecencyList)
        ensures
            l.wf(),
            l.order() == Seq::<usize>::empty(),
    {
        RecencyList {
            entries: Vec::new(),
            free: Vec::new(),
            head: None,
            tail: None,
            order: Ghost(Seq::empty()),
        }
    }

    /// The handle of the most recently used entry.
    pub fn head(&self) -> (r: Option<usize>)
        requires
            self.wf(),
        ensures
            r == (if self.order().len() == 0 { None } else { Some(self.order()[0]) }),
    {
        self.head
    }

    /// The handle of the least recently used entry.
    pub fn tail(&self) -> (r: Option<usize>)
        requires
            self.wf(),
        ensures
            r == (if self.order().len() == 0 {
                None
            } else {
                Some(self.order()[self.order().len() - 1])
            }),
    {
        self.tail
    }

    /// The handle that follows `order()[i]`, toward the tail.
    pub fn next_of(&self, h: usize, Ghost(i): Ghost<int>) -> (r: Option<usize>)
        requires
            self.wf(),
            0 <= i < self.order().len(),
            self.order()[i] == h,
        ensures
            r == (if i == self.order().len() - 1 { None } else { Some(self.order()[i + 1]) }),
    {
        proof {
            assert(self.in_use(self.order@[i]));
        }
        self.entries[h].next
    }

    pub fn key_of(&self, h: usize) -> (r: i64)
        requires
            self.wf(),
            self.in_use(h),
        ensures
            r == self.key_at(h),
    {
        self.entries[h].key
    }

    pub fn value_of(&self, h: usize) -> (r: i64)
        requires
            self.wf(),
            self.in_use(h),
        ensures
            r == self.value_at(h),
    {
        self.entries[h].value
    }

    /// Overwrites the value held in slot `h`; nothing else changes.
    pub fn set_value(&mut self, h: usize, value: i64)
        requires
            old(self).wf(),
            old(self).in_use(h),
        ensures
            final(self).wf(),
            final(self).order() == old(self).order(),
            final(self).value_at(h) == value,
            forall|g: usize| #[trigger] final(self).in_use(g) == old(self).in_use(g),
            forall|g: usize| #[trigger] old(self).in_use(g) ==> final(self).key_at(g) == old(self).key_at(g),
            forall|g: usize|
                g != h && #[trigger] old(self).in_use(g) ==> final(self).value_at(g) == old(self).value_at(g),
    {
        let mut e = self.entries[h];
        e.value = value;
        self.entries.set(h, e);
        proof {
            let order = self.order@;
            assert forall|i: int| 0 <= i < order.len() implies self.in_use(order[i])
                && (#[trigger] self.entries@[order[i] as int]).prev == old(self).entries@[order[i] as int].prev
                && self.entries@[order[i] as int].next == old(self).entries@[order[i] as int].next by {
                assert(old(self).in_use(order[i]));
            }
            assert forall|i: int| 0 <= i < order.len() implies #[trigger] self.in_use(order[i]) by {
                assert(old(self).in_use(order[i]));
            }
        }
    }

    /// Takes a free slot (a released one, or a new one at the end of the arena)
    /// and fills it with a new, unlinked entry.
    pub fn allocate(&mut self, key: i64, value: i64) -> (h: usize)
        requires
            old(self).wf(),
        ensures
            final(self).wf(),
            final(self).order() == old(self).order(),
            final(self).in_use(h),
            !old(self).order().contains(h),
            final(self).key_at(h) == key,
            final(self).value_at(h) == value,
            forall|g: usize| #[trigger] old(self).in_use(g) ==> final(self).in_use(g),
            forall|g: usize|
                #[trigger] old(self).in_use(g) ==> final(self).key_at(g) == old(self).key_at(g)
                    && final(self).value_at(g) == old(self).value_at(g),
    {
        let e = Entry { key, value, next: None, prev: None };
        let ghost old_order = self.order@;
        match self.free.pop() {
            Some(h) => {
                proof {
                    let fr = old(self).free@;
                    assert(fr[fr.len() - 1] == h);
                    assert(fr.contains(h));
                    assert(!self.free@.contains(h)) by {
                        if self.free@.contains(h) {
                            let j = choose|j: int| 0 <= j < self.free@.len() && self.free@[j] == h;
                            assert(fr[j] == fr[fr.len() - 1]);
                        }
                    }
                    assert(!old_order.contains(h)) by {
                        if old_order.contains(h) {
                            let i = choose|i: int| 0 <= i < old_order.len() && old_order[i] == h;
                            assert(old(self).in_use(old_order[i]));
                        }
                    }
                }
                self.entries.set(h, e);
                proof {
                    assert(self.entries@ == old(self).entries@.update(h as int, e));
                    assert forall|g: usize| #[trigger] old(self).in_use(g) implies self.in_use(g) by {
                        if self.free@.contains(g) {
                            let j = choose|j: int| 0 <= j < self.free@.len() && self.free@[j] == g;
                            assert(old(self).free@[j] == g);
                        }
                    }
                    assert forall|i: int| 0 <= i < old_order.len() implies #[trigger] self.in_use(
                        old_order[i],
                    ) by {
                        assert(old(self).in_use(old_order[i]));
                    }
                    assert forall|i: int| 0 <= i < old_order.len() implies old_order[i] != h
                        && #[trigger] self.entries@[old_order[i] as int] == old(self).entries@[old_order[i] as int] by {
                        assert(old_order.contains(old_order[i]));
                        assert(old(self).in_use(old_order[i]));
                    }
                }
                h
            },
            None => {
                let h = self.entries.len();
                proof {
                    assert(!old_order.contains(h)) by {
                        if old_order.contains(h) {
                            let i = choose|i: int| 0 <= i < old_order.len() && old_order[i] == h;
                            assert(old(self).in_use(old_order[i]));
                        }
                    }
                }
                self.entries.push(e);
                proof {
                    assert(self.entries@ == old(self).entries@.push(e));
                    assert forall|g: usize| #[trigger] old(self).in_use(g) implies self.in_use(g) by {
                    }
                    assert forall|i: int| 0 <= i < old_order.len() implies #[trigger] self.in_use(
                        old_order[i],
                    ) by {
                        assert(old(self).in_use(old_order[i]));
                    }
                    assert forall|i: int| 0 <= i < old_order.len() implies old_order[i] != h
                        && #[trigger] self.entries@[old_order[i] as int] == old(self).entries@[old_order[i] as int] by {
                        assert(old(self).in_use(old_order[i]));
                    }
                    assert(!self.free@.contains(h)) by {
                        if self.free@.contains(h) {
                            let j = choose|j: int| 0 <= j < self.free@.len() && self.free@[j] == h;
                        }
                    }
                }
                h
            },
        }
    }

    /// Returns the slot of an unlisted entry to the free list.
    pub fn release(&mut self, h: usize)
        requires
            old(self).wf(),
            old(self).in_use(h),
            !old(self).order().contains(h),
        ensures
            final(self).wf(),
            final(self).order() == old(self).order(),
            forall|g: usize| g != h ==> #[trigger] final(self).in_use(g) == old(self).in_use(g),
            forall|g: usize| #[trigger] final(self).key_at(g) == old(self).key_at(g),
            forall|g: usize| #[trigger] final(self).value_at(g) == old(self).value_at(g),
    {
        self.free.push(h);
        proof {
            let fr = old(self).free@;
            assert(self.free@ == fr.push(h));
            assert forall|a: int, b: int|
                0 <= a < self.free@.len() && 0 <= b < self.free@.len() && a != b implies self.free@[a]
                != self.free@[b] by {
                if a == fr.len() {
                    assert(fr.contains(self.free@[b]) || b == fr.len());
                } else if b == fr.len() {
                    assert(fr.contains(self.free@[a]));
                }
            }
            let order = self.order@;
            assert forall|i: int| 0 <= i < order.len() implies #[trigger] self.in_use(order[i]) by {
                assert(old(self).in_use(order[i]));
                assert(order[i] != h) by {
                    assert(order.contains(order[i]));
                }
                if self.free@.contains(order[i]) {
                    let j = choose|j: int| 0 <= j < self.free@.len() && self.free@[j] == order[i];
                    if j < fr.len() {
                        assert(fr[j] == order[i]);
                    }
                }
            }
            assert forall|g: usize| g != h implies #[trigger] self.in_use(g) == old(self).in_use(
                g,
            ) by {
                if self.free@.contains(g) {
                    let j = choose|j: int| 0 <= j < self.free@.len() && self.free@[j] == g;
                    assert(fr[j] == g);
                }
                if fr.contains(g) {
                    let j = choose|j: int| 0 <= j < fr.len() && fr[j] == g;
                    assert(self.free@[j] == g);
                }
            }
        }
    }

    /// Unlinks the entry `h`, which stands at position `i`, wherever it sits;
    /// its neighbours are joined and its own links cleared.
    pub fn detach(&mut self, h: usize, Ghost(i): Ghost<int>)
        requires
            old(self).wf(),
            0 <= i < old(self).order().len(),
            old(self).order()[i] == h,
        ensures
            final(self).wf(),
            final(self).order() == old(self).order().remove(i),
            forall|g: usize| #[trigger] final(self).in_use(g) == old(self).in_use(g),
            forall|g: usize|
                #[trigger] old(self).in_use(g) ==> final(self).key_at(g) == old(self).key_at(g)
                    && final(self).value_at(g) == old(self).value_at(g),
    {
        let ghost o = self.order@;
        let ghost n = o.len();
        proof {
            assert(self.in_use(o[i]));
            if i > 0 {
                assert(self.in_use(o[i - 1]));
            }
            if i < n - 1 {
                assert(self.in_use(o[i + 1]));
            }
        }
        let e = self.entries[h];
        let prev = e.prev;
        let next = e.next;
        if self.head == Some(h) {
            self.head = next;
        }
        if self.tail == Some(h) {
            self.tail = prev;
        }
        if let Some(p) = prev {
            let mut pe = self.entries[p];
            pe.next = next;
            self.entries.set(p, pe);
        }
        if let Some(q) = next {
            let mut qe = self.entries[q];
            qe.prev = prev;
            self.entries.set(q, qe);
        }
        let mut cleared = self.entries[h];
        cleared.next = None;
        cleared.prev = None;
        self.entries.set(h, cleared);
        self.order = Ghost(o.remove(i));
        proof {
            let o2 = self.order@;
            let old_entries = old(self).entries@;
            assert(self.entries@.len() == old_entries.len());
            assert forall|j: int| 0 <= j < n && j != i - 1 && j != i && j != i + 1 implies
                #[trigger] self.entries@[o[j] as int] == old_entries[o[j] as int] by {
                assert(old(self).in_use(o[j]));
                assert(o[j] != o[i]);
                if i > 0 {
                    assert(o[j] != o[i - 1]);
                }
                if i < n - 1 {
                    assert(o[j] != o[i + 1]);
                }
            }
            if i > 0 {
                assert(o[i - 1] != o[i]);
                if i < n - 1 {
                    assert(o[i + 1] != o[i]);
                    assert(o[i - 1] != o[i + 1]);
                }
            }
            if i < n - 1 {
                assert(o[i + 1] != o[i]);
            }
            assert forall|j: int| 0 <= j < o2.len() implies self.in_use(o2[j]) && (
            #[trigger] self.entries@[o2[j] as int]).prev == (if j == 0 {
                None
            } else {
                Some(o2[j - 1])
            }) && self.entries@[o2[j] as int].next == (if j == o2.len() - 1 {
                None
            } else {
                Some(o2[j + 1])
            }) by {
                if j < i {
                    assert(o2[j] == o[j]);
                    assert(old(self).in_use(o[j]));
                    assert(old_entries[o[j] as int].prev == (if j == 0 {
                        None
                    } else {
                        Some(o[j - 1])
                    }));
                } else {
                    assert(o2[j] == o[j + 1]);
                    assert(old(self).in_use(o[j + 1]));
                    assert(old_entries[o[j + 1] as int].next == (if j + 1 == n - 1 {
                        None
                    } else {
                        Some(o[j + 2])
                    }));
                }
            }
            assert forall|j: int| 0 <= j < o2.len() implies #[trigger] self.in_use(o2[j]) by {
                if j < i {
                    assert(old(self).in_use(o[j]));
                } else {
                    assert(old(self).in_use(o[j + 1]));
                }
            }
            assert forall|g: usize| #[trigger] old(self).in_use(g) implies self.key_at(g)
                == old(self).key_at(g) && self.value_at(g) == old(self).value_at(g) by {
            }
        }
    }

    /// Links the unlisted entry `h` in as the new head.
    pub fn prepend(&mut self, h: usize)
        requires
            old(self).wf(),
            old(self).in_use(h),
            !old(self).order().contains(h),
        ensures
            final(self).wf(),
            final(self).order() == seq![h] + old(self).order(),
            forall|g: usize| #[trigger] final(self).in_use(g) == old(self).in_use(g),
            forall|g: usize|
                #[trigger] old(self).in_use(g) ==> final(self).key_at(g) == old(self).key_at(g)
                    && final(self).value_at(g) == old(self).value_at(g),
    {
        let ghost o = self.order@;
        let ghost n = o.len();
        let mut e = self.entries[h];
        e.prev = None;
        match self.head {
            Some(old_head) => {
                proof {
                    assert(self.in_use(o[0]));
                }
                let mut he = self.entries[old_head];
                he.prev = Some(h);
                self.entries.set(old_head, he);
                e.next = Some(old_head);
                self.entries.set(h, e);
                self.head = Some(h);
            },
            None => {
                e.next = None;
                self.entries.set(h, e);
                self.head = Some(h);
                self.tail = Some(h);
            },
        }
        self.order = Ghost(seq![h] + o);
        proof {
            let o2 = self.order@;
            let old_entries = old(self).entries@;
            assert forall|j: int| 0 <= j < n && j != 0 implies #[trigger] self.entries@[o[j] as int]
                == old_entries[o[j] as int] by {
                assert(old(self).in_use(o[j]));
                assert(o[j] != o[0]);
                assert(o.contains(o[j]));
            }
            assert forall|a: int, b: int|
                0 <= a < o2.len() && 0 <= b < o2.len() && a != b implies o2[a] != o2[b] by {
                if a == 0 {
                    assert(o.contains(o2[b]));
                } else if b == 0 {
                    assert(o.contains(o2[a]));
                }
            }
            assert forall|j: int| 0 <= j < o2.len() implies self.in_use(o2[j]) && (
            #[trigger] self.entries@[o2[j] as int]).prev == (if j == 0 {
                None
            } else {
                Some(o2[j - 1])
            }) && self.entries@[o2[j] as int].next == (if j == o2.len() - 1 {
                None
            } else {
                Some(o2[j + 1])
            }) by {
                if j > 0 {
                    assert(o2[j] == o[j - 1]);
                    assert(old(self).in_use(o[j - 1]));
                    assert(o.contains(o[j - 1]));
                }
            }
            assert forall|j: int| 0 <= j < o2.len() implies #[trigger] self.in_use(o2[j]) by {
                if j > 0 {
                    assert(old(self).in_use(o[j - 1]));
                }
            }
        }
    }
}

} // verus!
