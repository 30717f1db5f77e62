//! A set kept as a flat sequence of elements in insertion order.
//!
//! Elements are compared with `==`. The functions that compare elements
//! ask, by `obeys_concrete_eq`, that `==` on the element type tells whether
//! two elements are the same value.

use vstd::laws_eq::obeys_concrete_eq;
use vstd::prelude::*;

verus! {

/// The elements after `item` has been inserted: an element that is already
/// there stays where it is; otherwise the new one goes to the end.
pub open spec fn with_item<T>(items: Seq<T>, item: T) -> Seq<T> {
    if items.contains(item) {
        items
    } else {
        items.push(item)
    }
}

/// The elements of a set into which `items` were inserted one after the
/// other, starting from the empty set.
pub open spec fn gathered<T>(items: Seq<T>) -> Seq<T>
    decreases items.len(),
{
    if items.len() == 0 {
        Seq::empty()
    } else {
        with_item(gathered(items.drop_last()), items.last())
    }
}

/// Inserting an element keeps the elements distinct.
pub proof fn lemma_with_item_distinct<T>(items: Seq<T>, item: T)
    requires
        items.no_duplicates(),
    ensures
        with_item(items, item).no_duplicates(),
{
    if !items.contains(item) {
        let after = items.push(item);
        assert forall|i: int, j: int| 0 <= i < after.len() && 0 <= j < after.len() && i
            != j implies after[i] != after[j] by {
            if i < items.len() && j < items.len() {
                assert(items[i] != items[j]);
            } else if i < items.len() {
                assert(items.contains(items[i]));
            } else {
                assert(items.contains(items[j]));
            }
        }
    }
}

/// Distinct elements are gathered as they stand.
pub proof fn lemma_gathered_of_distinct<T>(items: Seq<T>)
    requires
        items.no_duplicates(),
    ensures
        gathered(items) == items,
    decreases items.len(),
{
    if items.len() > 0 {
        let front = items.drop_last();
        assert(front.no_duplicates()) by {
            assert forall|i: int, j: int| 0 <= i < front.len() && 0 <= j < front.len() && i
                != j implies front[i] != front[j] by {
                assert(front[i] == items[i] && front[j] == items[j]);
            }
        }
        lemma_gathered_of_distinct(front);
        if front.contains(items.last()) {
            let p = choose|p: int| 0 <= p < front.len() && front[p] == items.last();
            assert(items[p] == items[items.len() - 1]);
        }
        assert(front.push(items.last()) =~= items);
    }
}

/// A set that keeps its elements in the order in which they were first
/// inserted and finds an element by scanning them.
#[derive(Debug)]
pub struct LinearSet<T> {
    items: Vec<T>,
}

impl<T> View for LinearSet<T> {
    type V = Seq<T>;

    closed spec fn view(&self) -> Seq<T> {
        self.items@
    }
}

impl<T> LinearSet<T> {
    /// The invariant of the type: no element occurs twice.
    pub open spec fn wf(&self) -> bool {
        self@.no_duplicates()
    }

    /// An empty set.
    pub fn new() -> (set: Self)
        ensures
            set.wf(),
            set@ == Seq::<T>::empty(),
    {
        LinearSet { items: Vec::new() }
    }

    /// An empty set with room set aside for `capacity` elements where the
    /// allocator can give it. The capacity has no effect on what the set holds.
    pub fn with_capacity(capacity: usize) -> (set: Self)
        ensures
            set.wf(),
            set@ == Seq::<T>::empty(),
    {
        let mut items: Vec<T> = Vec::new();
        let _ = items.try_reserve(capacity);
        LinearSet { items }
    }

    /// The number of elements.
    pub fn len(&self) -> (n: usize)
        ensures
            n == self@.len(),
    {
        self.items.len()
    }

    /// Whether the set has no element.
    pub fn is_empty(&self) -> (empty: bool)
        ensures
            empty == (self@.len() == 0),
    {
        self.items.len() == 0
    }

    /// The element at `index` in insertion order, or `None` past the end.
    pub fn item_at(&self, index: usize) -> (item: Option<&T>)
        ensures
            item == if index < self@.len() {
                Some(&self@[index as int])
            } else {
                None
            },
    {
        if index < self.items.len() {
            Some(&self.items[index])
        } else {
            None
        }
    }

    /// Whether `item` is an element.
    pub fn contains(&self, item: &T) -> (found: bool) where T: PartialEq
        requires
            obeys_concrete_eq::<T>(),
        ensures
            found == self@.contains(*item),
    {
        let mut i: usize = 0;
        while i < self.items.len()
            invariant
                obeys_concrete_eq::<T>(),
                i <= self.items@.len(),
                forall|j: int| 0 <= j < i ==> self.items@[j] != *item,
            decreases self.items@.len() - i,
        {
            proof {
                reveal(obeys_concrete_eq);
            }
            if self.items[i] == *item {
                return true;
            }
            i += 1;
        }
        false
    }

    /// Inserts `item`, and says whether it was new. An element that is
    /// already there keeps its place in the order.
    pub fn insert(&mut self, item: T) -> (fresh: bool) where T: PartialEq
        requires
            old(self).wf(),
            obeys_concrete_eq::<T>(),
        ensures
            final(self).wf(),
            final(self)@ == with_item(old(self)@, item),
            fresh == !old(self)@.contains(item),
    {
        proof {
            lemma_with_item_distinct(self.items@, item);
        }
        if self.contains(&item) {
            false
        } else {
            self.items.push(item);
            true
        }
    }
}

} // verus!
