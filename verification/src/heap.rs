//! A binary max-heap of candidate rows, farthest on top.

use crate::scalar::Scalar;
use std::cmp::Ordering;
use vstd::multiset::Multiset;
use vstd::prelude::*;
use vstd::seq_lib::{to_multiset_build, to_multiset_contains, to_multiset_insert, to_multiset_len, to_multiset_remove};

verus! {

/// A row and its distance from the query. Items compare by distance alone, and a
/// NaN counts as equal to every distance.
#[derive(Clone, Copy, Debug)]
pub struct HeapItem {
    pub row_idx: u32,
    pub distance: Scalar,
}

/// How two distances compare, where a NaN counts as equal to every distance.
pub open spec fn distance_order(a: Scalar, b: Scalar) -> Ordering {
    if a.lt(b) {
        Ordering::Less
    } else if b.lt(a) {
        Ordering::Greater
    } else {
        Ordering::Equal
    }
}

/// How two distances compare, where a NaN counts as equal to every distance.
pub fn compare_distances(a: Scalar, b: Scalar) -> (r: Ordering)
    ensures
        r == distance_order(a, b),
{
    if a.less(b) {
        Ordering::Less
    } else if b.less(a) {
        Ordering::Greater
    } else {
        Ordering::Equal
    }
}

impl HeapItem {
    /// How two items compare.
    pub fn cmp(&self, other: &Self) -> (r: Ordering)
        ensures
            r == distance_order(self.distance, other.distance),
    {
        compare_distances(self.distance, other.distance)
    }
}

impl PartialEq for HeapItem {
    fn eq(&self, other: &Self) -> (r: bool) {
        self.distance.equals(other.distance)
    }
}

impl vstd::std_specs::cmp::PartialEqSpecImpl for HeapItem {
    open spec fn obeys_eq_spec() -> bool {
        true
    }

    open spec fn eq_spec(&self, other: &Self) -> bool {
        self.distance.same(other.distance)
    }
}

impl Eq for HeapItem {

}

impl PartialOrd for HeapItem {
    fn partial_cmp(&self, other: &Self) -> (r: Option<Ordering>) {
        Some(self.cmp(other))
    }
}

impl vstd::std_specs::cmp::PartialOrdSpecImpl for HeapItem {
    open spec fn obeys_partial_cmp_spec() -> bool {
        true
    }

    open spec fn partial_cmp_spec(&self, other: &Self) -> Option<Ordering> {
        Some(distance_order(self.distance, other.distance))
    }
}

/// Items by distance. Where no distance is a NaN, the greatest is on top; a NaN
/// is neither above nor below another, so where there is one, which item is on
/// top depends on the order in which they came.
pub struct DistanceHeap {
    items: Vec<HeapItem>,
}

/// Whether no distance is a NaN.
pub open spec fn no_nans(items: Multiset<HeapItem>) -> bool {
    forall|x: HeapItem| #[trigger] items.contains(x) ==> !x.distance.nan()
}

/// The parent of position `i`.
spec fn parent(i: int) -> int {
    (i - 1) / 2
}

/// Whether the item at `below` is not above the one at `above`.
spec fn in_order(items: Seq<HeapItem>, above: int, below: int) -> bool {
    !items[above].distance.lt(items[below].distance)
}

/// Every item but the one at `hole` is in order with its parent, and the items
/// below `hole` are in order with the parent of `hole`.
spec fn ordered_but_above(items: Seq<HeapItem>, hole: int) -> bool {
    &&& forall|i: int| 0 < i < items.len() && i != hole ==> #[trigger] in_order(items, parent(i), i)
    &&& forall|i: int|
        0 < i < items.len() && parent(i) == hole && hole > 0 ==> #[trigger] in_order(items, parent(hole), i)
}

/// Every item but the one at `hole` and those below it is in order with its
/// parent, and the items below `hole` are in order with the parent of `hole`.
spec fn ordered_but_around(items: Seq<HeapItem>, hole: int) -> bool {
    &&& forall|i: int|
        0 < i < items.len() && i != hole && parent(i) != hole ==> #[trigger] in_order(items, parent(i), i)
    &&& forall|i: int|
        0 < i < items.len() && parent(i) == hole && hole > 0 ==> #[trigger] in_order(items, parent(hole), i)
}

spec fn ordered(items: Seq<HeapItem>) -> bool {
    forall|i: int| 0 < i < items.len() ==> #[trigger] in_order(items, parent(i), i)
}

proof fn lemma_top_is_greatest(items: Seq<HeapItem>, i: int)
    requires
        ordered(items),
        forall|j: int| 0 <= j < items.len() ==> !(#[trigger] items[j]).distance.nan(),
        0 <= i < items.len(),
    ensures
        in_order(items, 0, i),
    decreases i,
{
    if i > 0 {
        lemma_top_is_greatest(items, parent(i));
        assert(in_order(items, parent(i), i));
        assert(!items[parent(i)].distance.nan() && !items[i].distance.nan() && !items[0].distance.nan());
    }
}

proof fn lemma_top(items: Seq<HeapItem>)
    requires
        ordered(items),
        items.len() > 0,
    ensures
        items.to_multiset().contains(items[0]),
        no_nans(items.to_multiset()) ==> forall|x: HeapItem| #[trigger]
            items.to_multiset().contains(x) ==> !items[0].distance.lt(x.distance),
{
    to_multiset_contains(items, items[0]);
    assert(items.contains(items[0]));
    if no_nans(items.to_multiset()) {
        assert forall|j: int| 0 <= j < items.len() implies !(#[trigger] items[j]).distance.nan() by {
            assert(items.contains(items[j]));
            to_multiset_contains(items, items[j]);
            assert(items.to_multiset().contains(items[j]));
        }
        assert forall|x: HeapItem| #[trigger] items.to_multiset().contains(x) implies !items[0].distance.lt(
            x.distance,
        ) by {
            to_multiset_contains(items, x);
            let i = choose|i: int| 0 <= i < items.len() && items[i] == x;
            lemma_top_is_greatest(items, i);
        }
    }
}

pub(crate) proof fn lemma_update_to_multiset<T>(s: Seq<T>, i: int, v: T)
    requires
        0 <= i < s.len(),
    ensures
        s.update(i, v).to_multiset() == s.to_multiset().remove(s[i]).insert(v),
{
    assert(s.update(i, v) =~= s.remove(i).insert(i, v));
    to_multiset_remove(s, i);
    to_multiset_insert(s.remove(i), i, v);
}

proof fn lemma_swap_to_multiset<T>(s: Seq<T>, i: int, j: int)
    requires
        0 <= i < s.len(),
        0 <= j < s.len(),
    ensures
        s.update(i, s[j]).update(j, s[i]).to_multiset() == s.to_multiset(),
{
    let t = s.update(i, s[j]);
    lemma_update_to_multiset(s, i, s[j]);
    lemma_update_to_multiset(t, j, s[i]);
    to_multiset_contains(s, s[i]);
    assert(s.contains(s[i]));
    assert(t[j] == s[j]);
    assert(t.update(j, s[i]).to_multiset() =~= s.to_multiset());
}

impl View for DistanceHeap {
    type V = Multiset<HeapItem>;

    /// The items, each as often as it was pushed.
    closed spec fn view(&self) -> Multiset<HeapItem> {
        self.items@.to_multiset()
    }
}

impl DistanceHeap {
    /// No item is above its parent.
    #[verifier::type_invariant]
    spec fn heap_ordered(self) -> bool {
        ordered(self.items@)
    }

    /// An empty heap.
    pub fn new() -> (r: Self)
        ensures
            r@ == Multiset::<HeapItem>::empty(),
    {
        let items: Vec<HeapItem> = Vec::new();
        proof {
            to_multiset_len(items@);
            assert(items@.to_multiset() =~= Multiset::<HeapItem>::empty());
        }
        DistanceHeap { items }
    }

    /// The number of items.
    pub fn len(&self) -> (r: usize)
        ensures
            r == self@.len(),
    {
        proof {
            to_multiset_len(self.items@);
        }
        self.items.len()
    }

    /// The item on top of a heap that is not empty.
    pub closed spec fn top(&self) -> HeapItem {
        self.items@[0]
    }

    /// The item on top: where no distance is a NaN, one that none is above.
    pub fn peek(&self) -> (r: Option<HeapItem>)
        ensures
            r is None <==> self@.len() == 0,
            r matches Some(top) ==> {
                &&& top == self.top()
                &&& self@.contains(top)
                &&& no_nans(self@) ==> forall|x: HeapItem| #[trigger]
                    self@.contains(x) ==> !top.distance.lt(x.distance)
            },
    {
        proof {
            use_type_invariant(self);
            to_multiset_len(self.items@);
        }
        if self.items.len() == 0 {
            None
        } else {
            proof {
                lemma_top(self.items@);
            }
            Some(self.items[0])
        }
    }

    /// Adds `item`.
    pub fn push(&mut self, item: HeapItem)
        ensures
            final(self)@ == old(self)@.insert(item),
    {
        proof {
            use_type_invariant(&*self);
        }
        let mut items: Vec<HeapItem> = Vec::new();
        std::mem::swap(&mut items, &mut self.items);
        let ghost before = items@;
        items.push(item);
        proof {
            to_multiset_build(before, item);
            assert forall|i: int| 0 < i < items@.len() && i != before.len() implies #[trigger] in_order(
                items@,
                parent(i),
                i,
            ) by {
                assert(in_order(before, parent(i), i));
            }
        }
        let last: usize = items.len() - 1;
        sift_up(&mut items, last);
        self.items = items;
    }

    /// Removes the item on top.
    pub fn pop(&mut self) -> (r: Option<HeapItem>)
        ensures
            r is None <==> old(self)@.len() == 0,
            r is None ==> final(self)@ == old(self)@,
            r matches Some(top) ==> {
                &&& top == old(self).top()
                &&& old(self)@.contains(top)
                &&& no_nans(old(self)@) ==> forall|x: HeapItem| #[trigger]
                    old(self)@.contains(x) ==> !top.distance.lt(x.distance)
                &&& final(self)@ == old(self)@.remove(top)
            },
    {
        proof {
            use_type_invariant(&*self);
            to_multiset_len(self.items@);
            if self.items@.len() > 0 {
                lemma_top(self.items@);
            }
        }
        let mut items: Vec<HeapItem> = Vec::new();
        std::mem::swap(&mut items, &mut self.items);
        let ghost before = items@;
        match items.pop() {
            None => {
                assert(items@ =~= before);
                self.items = items;
                None
            },
            Some(last) => {
                let ghost n = before.len() as int;
                assert(items@ =~= before.remove(n - 1));
                proof {
                    to_multiset_remove(before, n - 1);
                }
                if items.len() == 0 {
                    self.items = items;
                    Some(last)
                } else {
                    let first: HeapItem = items[0];
                    let ghost shorter = items@;
                    items.set(0, last);
                    proof {
                        lemma_update_to_multiset(shorter, 0, last);
                        to_multiset_contains(before, last);
                        assert(before.contains(last));
                        to_multiset_contains(shorter, first);
                        assert(shorter.contains(first));
                        assert(items@.to_multiset() =~= before.to_multiset().remove(first));
                        assert forall|i: int| 0 < i < items@.len() && i != 0 && parent(i) != 0 implies #[trigger] in_order(
                            items@,
                            parent(i),
                            i,
                        ) by {
                            assert(in_order(before, parent(i), i));
                        }
                    }
                    sift_down_to_bottom(&mut items);
                    self.items = items;
                    Some(first)
                }
            },
        }
    }

    /// The items, in the order in which the heap holds them.
    pub fn into_vec(self) -> (r: Vec<HeapItem>)
        ensures
            r@.to_multiset() == self@,
    {
        self.items
    }
}

/// Moves the item at `start` up until it is not above its parent.
fn sift_up(items: &mut Vec<HeapItem>, start: usize)
    requires
        start < old(items)@.len(),
        ordered_but_above(old(items)@, start as int),
    ensures
        ordered(final(items)@),
        final(items)@.to_multiset() == old(items)@.to_multiset(),
{
    let mut hole: usize = start;
    while hole > 0 && items[(hole - 1) / 2].distance.less(items[hole].distance)
        invariant
            hole < items@.len(),
            ordered_but_above(items@, hole as int),
            items@.to_multiset() == old(items)@.to_multiset(),
        decreases hole,
    {
        let up: usize = (hole - 1) / 2;
        let ghost before = items@;
        let lower: HeapItem = items[hole];
        let upper: HeapItem = items[up];
        items.set(hole, upper);
        items.set(up, lower);
        proof {
            lemma_swap_to_multiset(before, hole as int, up as int);
            let h = hole as int;
            let u = up as int;
            assert(u == parent(h));
            assert(before[u].distance.lt(before[h].distance));
            assert forall|i: int| 0 < i < items@.len() && i != u implies #[trigger] in_order(items@, parent(i), i) by {
                if i == h {
                } else if parent(i) == h {
                    assert(in_order(before, parent(h), i));
                } else {
                    assert(in_order(before, parent(i), i));
                }
            }
            assert forall|i: int| 0 < i < items@.len() && parent(i) == u && u > 0 implies #[trigger] in_order(
                items@,
                parent(u),
                i,
            ) by {
                assert(in_order(before, parent(u), u));
                if i != h {
                    assert(in_order(before, parent(i), i));
                }
            }
        }
        hole = up;
    }
    proof {
        assert forall|i: int| 0 < i < items@.len() implies #[trigger] in_order(items@, parent(i), i) by {
            if i == hole {
            }
        }
    }
}

/// Moves the first item down to the bottom, past the greater of the two items
/// below it each time, and from there up to its place.
fn sift_down_to_bottom(items: &mut Vec<HeapItem>)
    requires
        old(items)@.len() > 0,
        ordered_but_around(old(items)@, 0),
    ensures
        ordered(final(items)@),
        final(items)@.to_multiset() == old(items)@.to_multiset(),
{
    let len: usize = items.len();
    let mut hole: usize = 0;
    while hole < len / 2
        invariant
            len == items@.len(),
            hole < len,
            ordered_but_around(items@, hole as int),
            items@.to_multiset() == old(items)@.to_multiset(),
        decreases len - hole,
    {
        let ghost h = hole as int;
        let ghost before = items@;
        let left: usize = 2 * hole + 1;
        let greater: usize = if left + 1 < len && !items[left + 1].distance.less(items[left].distance) {
            left + 1
        } else {
            left
        };
        let ghost g = greater as int;
        assert(parent(g) == h);
        let upper: HeapItem = items[hole];
        let lower: HeapItem = items[greater];
        items.set(hole, lower);
        items.set(greater, upper);
        proof {
            lemma_swap_to_multiset(before, h, g);
            assert forall|i: int| 0 < i < items@.len() && i != g && parent(i) != g implies #[trigger] in_order(
                items@,
                parent(i),
                i,
            ) by {
                if parent(i) == h {
                    assert(i == left || i == left + 1);
                } else if i == h {
                    assert(in_order(before, parent(h), g));
                } else {
                    assert(in_order(before, parent(i), i));
                }
            }
            assert forall|i: int| 0 < i < items@.len() && parent(i) == g && g > 0 implies #[trigger] in_order(
                items@,
                parent(g),
                i,
            ) by {
                assert(in_order(before, parent(i), i));
            }
        }
        hole = greater;
    }
    assert forall|i: int| 0 < i < items@.len() implies parent(i) != hole by {
        assert(parent(i) < len / 2);
    }
    sift_up(items, hole);
}

} // verus!
