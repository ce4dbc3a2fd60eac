//! A binary min-heap of `(key, id)` pairs, ordered lexicographically.

use vstd::multiset::Multiset;
use vstd::prelude::*;

verus! {

/// The lexicographic order on `(key, id)` pairs.
pub open spec fn slot_le(a: (u64, u64), b: (u64, u64)) -> bool {
    a.0 < b.0 || (a.0 == b.0 && a.1 <= b.1)
}

/// The strict lexicographic order on `(key, id)` pairs.
pub open spec fn slot_lt(a: (u64, u64), b: (u64, u64)) -> bool {
    a.0 < b.0 || (a.0 == b.0 && a.1 < b.1)
}

/// The index of the parent of `i` in the array layout of a binary heap.
pub open spec fn parent(i: int) -> int {
    (i - 1) / 2
}

/// Every element is at least its parent.
pub open spec fn heap_ordered(s: Seq<(u64, u64)>) -> bool {
    forall|i: int| 1 <= i < s.len() ==> slot_le(s[parent(i)], #[trigger] s[i])
}

fn slot_less(a: (u64, u64), b: (u64, u64)) -> (r: bool)
    ensures
        r == slot_lt(a, b),
{
    a.0 < b.0 || (a.0 == b.0 && a.1 < b.1)
}

/// The root of a heap is its least element.
proof fn lemma_root_is_least(s: Seq<(u64, u64)>, i: int)
    requires
        heap_ordered(s),
        0 <= i < s.len(),
    ensures
        slot_le(s[0], s[i]),
    decreases i,
{
    if i > 0 {
        assert(0 <= parent(i) < i);
        lemma_root_is_least(s, parent(i));
        assert(slot_le(s[parent(i)], s[i]));
    }
}

/// Exchanging two elements keeps the multiset of elements.
proof fn lemma_swap_multiset(s: Seq<(u64, u64)>, i: int, j: int)
    requires
        0 <= i < s.len(),
        0 <= j < s.len(),
    ensures
        s.update(i, s[j]).update(j, s[i]).to_multiset() == s.to_multiset(),
{
    broadcast use vstd::seq_lib::group_to_multiset_ensures;
    let a = s.update(i, s[j]);
    let b = a.update(j, s[i]);
    vstd::seq_lib::to_multiset_update(s, i, s[j]);
    vstd::seq_lib::to_multiset_update(a, j, s[i]);
    assert(s.contains(s[i]) && s.contains(s[j]));
    if i == j {
        assert(b =~= s);
    } else {
        assert(a[j] == s[j]);
        assert(b.to_multiset() =~= s.to_multiset());
    }
}

/// A min-heap of `(key, id)` pairs.
pub struct MinHeap {
    slots: Vec<(u64, u64)>,
}

impl View for MinHeap {
    type V = Multiset<(u64, u64)>;

    closed spec fn view(&self) -> Multiset<(u64, u64)> {
        self.slots@.to_multiset()
    }
}

impl MinHeap {
    /// The array satisfies the heap order.
    pub closed spec fn wf(&self) -> bool {
        heap_ordered(self.slots@)
    }

    /// An empty heap.
    pub fn new() -> (r: Self)
        ensures
            r.wf(),
            r@ == Multiset::<(u64, u64)>::empty(),
    {
        broadcast use vstd::seq_lib::group_to_multiset_ensures;

        let r = MinHeap { slots: Vec::new() };
        assert(r@ =~= Multiset::<(u64, u64)>::empty());
        r
    }

    /// The number of slots held.
    pub fn len(&self) -> (n: usize)
        ensures
            n == self@.len(),
    {
        broadcast use vstd::seq_lib::group_to_multiset_ensures;

        self.slots.len()
    }

    fn swap(&mut self, i: usize, j: usize)
        requires
            i < old(self).slots@.len(),
            j < old(self).slots@.len(),
        ensures
            final(self).slots@ == old(self).slots@.update(i as int, old(self).slots@[j as int]).update(
                j as int,
                old(self).slots@[i as int],
            ),
            final(self)@ == old(self)@,
    {
        proof {
            lemma_swap_multiset(self.slots@, i as int, j as int);
        }
        let a = self.slots[i];
        let b = self.slots[j];
        self.slots.set(i, b);
        self.slots.set(j, a);
    }

    /// Add a slot.
    pub fn push(&mut self, slot: (u64, u64))
        requires
            old(self).wf(),
        ensures
            final(self).wf(),
            final(self)@ == old(self)@.insert(slot),
    {
        broadcast use vstd::seq_lib::group_to_multiset_ensures;

        let mut i: usize = self.slots.len();
        self.slots.push(slot);
        while i > 0
            invariant
                i < self.slots@.len(),
                self@ == old(self)@.insert(slot),
                forall|j: int|
                    1 <= j < self.slots@.len() && j != i ==> slot_le(
                        self.slots@[parent(j)],
                        #[trigger] self.slots@[j],
                    ),
                forall|j: int|
                    1 <= j < self.slots@.len() && parent(j) == i && i > 0 ==> slot_le(
                        self.slots@[parent(i as int)],
                        #[trigger] self.slots@[j],
                    ),
            ensures
                self@ == old(self)@.insert(slot),
                heap_ordered(self.slots@),
            decreases i,
        {
            let p: usize = (i - 1) / 2;
            assert(p == parent(i as int));
            if !slot_less(self.slots[i], self.slots[p]) {
                break;
            }
            let ghost before = self.slots@;
            self.swap(i, p);
            proof {
                assert forall|j: int|
                    1 <= j < self.slots@.len() && j != p implies slot_le(
                    self.slots@[parent(j)],
                    #[trigger] self.slots@[j],
                ) by {
                    if j == i {
                    } else if parent(j) == i {
                        assert(slot_le(before[parent(i as int)], before[j]));
                    } else if parent(j) == p {
                        assert(slot_le(before[p as int], before[j]));
                    } else {
                        assert(slot_le(before[parent(j)], before[j]));
                    }
                }
                assert forall|j: int|
                    1 <= j < self.slots@.len() && parent(j) == p && p > 0 implies slot_le(
                    self.slots@[parent(p as int)],
                    #[trigger] self.slots@[j],
                ) by {
                    assert(slot_le(before[parent(p as int)], before[p as int]));
                    if j != i {
                        assert(slot_le(before[parent(j)], before[j]));
                    }
                }
            }
            i = p;
        }
    }

    /// Remove and return the least slot; `None` when empty.
    pub fn pop(&mut self) -> (r: Option<(u64, u64)>)
        requires
            old(self).wf(),
        ensures
            final(self).wf(),
            match r {
                None => old(self)@.len() == 0 && final(self)@ == old(self)@,
                Some(slot) => {
                    &&& old(self)@.count(slot) > 0
                    &&& forall|other: (u64, u64)| #[trigger]
                        old(self)@.count(other) > 0 ==> slot_le(slot, other)
                    &&& final(self)@ == old(self)@.remove(slot)
                    &&& final(self)@.len() + 1 == old(self)@.len()
                },
            },
    {
        broadcast use vstd::seq_lib::group_to_multiset_ensures;

        let n: usize = self.slots.len();
        if n == 0 {
            return None;
        }
        let ghost start = self.slots@;
        let root = self.slots[0];
        proof {
            assert forall|other: (u64, u64)| #[trigger] self@.count(other) > 0 implies slot_le(
                root,
                other,
            ) by {
                assert(start.contains(other));
                let i = choose|i: int| 0 <= i < start.len() && start[i] == other;
                lemma_root_is_least(start, i);
            }
            assert(start.contains(root));
        }
        self.swap(0, n - 1);
        let ghost swapped = self.slots@;
        self.slots.pop();
        proof {
            assert(self.slots@ =~= swapped.drop_last());
            assert(swapped.last() == root);
            assert(swapped =~= swapped.drop_last().push(root));
            assert(swapped.to_multiset() == swapped.drop_last().to_multiset().insert(root));
            assert(self@ =~= old(self)@.remove(root));
        }
        let m: usize = n - 1;
        let mut i: usize = 0;
        proof {
            assert forall|j: int| 1 <= j < self.slots@.len() && parent(j) != 0 implies slot_le(
                self.slots@[parent(j)],
                #[trigger] self.slots@[j],
            ) by {
                assert(slot_le(start[parent(j)], start[j]));
            }
        }
        loop
            invariant_except_break
                m == self.slots@.len(),
                m == 0 || i < m,
                self@ == old(self)@.remove(root),
                forall|j: int|
                    1 <= j < self.slots@.len() && parent(j) != i ==> slot_le(
                        self.slots@[parent(j)],
                        #[trigger] self.slots@[j],
                    ),
                forall|j: int|
                    1 <= j < self.slots@.len() && parent(j) == i && i > 0 ==> slot_le(
                        self.slots@[parent(i as int)],
                        #[trigger] self.slots@[j],
                    ),
            ensures
                heap_ordered(self.slots@),
                self@ == old(self)@.remove(root),
            decreases m - i,
        {
            if m == 0 || i > (m - 1) / 2 || 2 * i + 1 >= m {
                break;
            }
            let l: usize = 2 * i + 1;
            let mut c: usize = l;
            if l + 1 < m && slot_less(self.slots[l + 1], self.slots[l]) {
                c = l + 1;
            }
            assert(parent(c as int) == i);
            assert forall|j: int|
                1 <= j < self.slots@.len() && parent(j) == i implies slot_le(
                self.slots@[c as int],
                #[trigger] self.slots@[j],
            ) by {
                assert(j == l || j == l + 1);
            }
            if !slot_less(self.slots[c], self.slots[i]) {
                break;
            }
            let ghost before = self.slots@;
            self.swap(i, c);
            proof {
                assert forall|j: int|
                    1 <= j < self.slots@.len() && parent(j) != c implies slot_le(
                    self.slots@[parent(j)],
                    #[trigger] self.slots@[j],
                ) by {
                    if j == c {
                    } else if parent(j) == i {
                        assert(slot_le(before[c as int], before[j]));
                    } else if j == i {
                        assert(parent(c as int) == i);
                        assert(slot_le(before[parent(i as int)], before[c as int]));
                    } else {
                        assert(slot_le(before[parent(j)], before[j]));
                    }
                }
                assert forall|j: int|
                    1 <= j < self.slots@.len() && parent(j) == c && c > 0 implies slot_le(
                    self.slots@[parent(c as int)],
                    #[trigger] self.slots@[j],
                ) by {
                    assert(slot_le(before[parent(j)], before[j]));
                }
            }
            i = c;
        }
        Some(root)
    }
}

// ---------------------------------------------------------------------------
// Laws
// ---------------------------------------------------------------------------

/// A heap gives out its least slot, by key and then by id, and keeps the others; it gives none
/// exactly when it is empty.
pub proof fn law_least_slot_comes_first(
    heap: &mut MinHeap,
    r: Option<(u64, u64)>,
    other: (u64, u64),
    n: usize,
)
    requires
        call_ensures(MinHeap::pop, (heap,), r),
        call_ensures(MinHeap::len, (&*old(heap),), n),
    ensures
        r is None <==> n == 0,
        r is None ==> final(heap)@ == old(heap)@,
        r is Some ==> {
            let (key, id) = r->0;
            &&& old(heap)@.count((key, id)) > 0
            &&& old(heap)@.count(other) > 0 ==> key < other.0 || (key == other.0 && id <= other.1)
            &&& final(heap)@ == old(heap)@.remove((key, id))
        },
{
}

/// A slot that is added is held once more, and the others as before; a new heap holds none.
pub proof fn law_added_slot_is_held(
    heap: &mut MinHeap,
    slot: (u64, u64),
    other: (u64, u64),
    fresh: MinHeap,
)
    requires
        call_ensures(MinHeap::push, (heap, slot), ()),
        call_ensures(MinHeap::new, (), fresh),
    ensures
        final(heap)@.count(slot) == old(heap)@.count(slot) + 1,
        other != slot ==> final(heap)@.count(other) == old(heap)@.count(other),
        fresh@.count(other) == 0,
{
    broadcast use vstd::multiset::group_multiset_axioms;

}

} // verus!
