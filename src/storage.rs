use vstd::prelude::*;
use crate::list::{
    holes_of, lemma_holes_count, lemma_live_count_fill, lemma_live_count_occupancy, lemma_live_count_push,
    lemma_live_count_remove, lemma_live_count_vacate, live_count, occupancy, ListStorage, MoveFix,
};

verus! {

/// The elements of a list, keyed by their positions; vacant positions have no entry.
pub open spec fn entries_of<T>(slots: Seq<Option<T>>) -> Map<usize, T> {
    Map::new(|i: usize| (i as int) < slots.len() && slots[i as int] is Some, |i: usize| slots[i as int].unwrap())
}

/// A list of at most `usize::MAX` positions has as many entries as live elements.
proof fn lemma_entries_count<T>(slots: Seq<Option<T>>)
    requires
        slots.len() <= usize::MAX,
    ensures
        entries_of(slots).dom().finite(),
        entries_of(slots).dom().len() == live_count(slots),
    decreases slots.len(),
{
    broadcast use vstd::set::group_set_axioms;

    lemma_holes_count(slots);
    if slots.len() == 0 {
        assert(entries_of(slots).dom() =~= Set::<usize>::empty());
        assert(holes_of(slots) =~= Set::<int>::empty());
    } else {
        let t = slots.drop_last();
        lemma_entries_count(t);
        lemma_holes_count(t);
        let k = (slots.len() - 1) as usize;
        if slots.last() is Some {
            assert(entries_of(slots).dom() =~= entries_of(t).dom().insert(k));
            assert(holes_of(slots) =~= holes_of(t));
        } else {
            assert(entries_of(slots).dom() =~= entries_of(t).dom());
            assert(holes_of(slots) =~= holes_of(t).insert(slots.len() - 1));
        }
    }
}

/// Containers which can be the backing storage for data structures: each element is
/// named by a key, unique among the elements that are alive at the same time.
pub trait Storage: Sized {
    /// The type used for element naming.
    type Key;
    /// The type of the elements stored.
    type Element;

    /// The live elements, by key.
    spec fn entries(&self) -> Map<Self::Key, Self::Element>;

    /// What `len` reports.
    spec fn spec_len(&self) -> nat;

    /// The container's internal invariant.
    spec fn is_valid(&self) -> bool;

    /// Adds an element under an unused key, returning that key.
    fn add(&mut self, element: Self::Element) -> (r: Self::Key)
        requires
            old(self).is_valid(),
            old(self).spec_len() < usize::MAX,
        ensures
            final(self).is_valid(),
            !old(self).entries().contains_key(r),
            final(self).entries() == old(self).entries().insert(r, element),
            final(self).entries().dom().finite(),
            final(self).entries().dom().len() == old(self).entries().dom().len() + 1,
    ;

    /// Removes and returns the element named by `key`, which must be present.
    fn remove(&mut self, key: &Self::Key) -> (r: Self::Element)
        requires
            old(self).is_valid(),
            old(self).entries().contains_key(*key),
        ensures
            final(self).is_valid(),
            r == old(self).entries()[*key],
            final(self).entries().dom().finite(),
            final(self).entries().dom().len() + 1 == old(self).entries().dom().len(),
    ;

    /// The number of elements, also referred to as the storage's length.
    fn len(&self) -> (r: usize)
        requires
            self.is_valid(),
        ensures
            r == self.spec_len(),
    ;

    /// Creates an empty storage with room for `capacity` elements.
    fn with_capacity(capacity: usize) -> (r: Self)
        ensures
            r.is_valid(),
            r.entries() == Map::<Self::Key, Self::Element>::empty(),
            r.spec_len() == 0,
    ;

    /// The element named by `key`, which must be present.
    fn get_unchecked(&self, key: &Self::Key) -> (r: &Self::Element)
        requires
            self.is_valid(),
            self.entries().contains_key(*key),
        ensures
            *r == self.entries()[*key],
    ;

    /// The element named by `key`, which must be present, for mutation.
    fn get_unchecked_mut(&mut self, key: &Self::Key) -> (r: &mut Self::Element)
        requires
            old(self).is_valid(),
            old(self).entries().contains_key(*key),
        ensures
            *r == old(self).entries()[*key],
            final(self).is_valid(),
            final(self).entries() == old(self).entries().insert(*key, *final(r)),
            final(self).spec_len() == old(self).spec_len(),
    ;

    /// Whether `key` names a live element.
    fn contains_key(&self, key: &Self::Key) -> (r: bool)
        requires
            self.is_valid(),
        ensures
            r == self.entries().contains_key(*key),
    ;

    /// The element named by `key`, or `None` if there is none.
    fn get(&self, key: &Self::Key) -> (r: Option<&Self::Element>)
        requires
            self.is_valid(),
        ensures
            match r {
                Some(x) => self.entries().contains_key(*key) && *x == self.entries()[*key],
                None => !self.entries().contains_key(*key),
            },
    {
        if self.contains_key(key) {
            Some(self.get_unchecked(key))
        } else {
            None
        }
    }

    /// The element named by `key` for mutation, or `None` if there is none.
    fn get_mut(&mut self, key: &Self::Key) -> (r: Option<&mut Self::Element>)
        requires
            old(self).is_valid(),
        ensures
            final(self).is_valid(),
            final(self).spec_len() == old(self).spec_len(),
            match r {
                Some(x) => old(self).entries().contains_key(*key) && *x == old(self).entries()[*key]
                    && final(self).entries() == old(self).entries().insert(*key, *final(x)),
                None => !old(self).entries().contains_key(*key) && final(self).entries() == old(self).entries(),
            },
    {
        if self.contains_key(key) {
            Some(self.get_unchecked_mut(key))
        } else {
            None
        }
    }

    /// Creates an empty storage.
    fn new() -> (r: Self)
        ensures
            r.is_valid(),
            r.entries() == Map::<Self::Key, Self::Element>::empty(),
            r.spec_len() == 0,
    {
        Self::with_capacity(0)
    }

    /// Whether `len` is zero.
    fn is_empty(&self) -> (r: bool)
        requires
            self.is_valid(),
        ensures
            r == (self.spec_len() == 0),
    {
        self.len() == 0
    }

    /// The number of elements the storage can hold without allocating.
    fn capacity(&self) -> (r: usize)
        requires
            self.is_valid(),
        ensures
            r >= self.spec_len(),
    {
        self.len()
    }

    /// Makes room for at least `additional` more elements.
    fn reserve(&mut self, additional: usize)
        requires
            old(self).is_valid(),
        ensures
            final(self).is_valid(),
            final(self).entries() == old(self).entries(),
            final(self).spec_len() == old(self).spec_len(),
    ;

    /// Gives back as much unused room as possible.
    fn shrink_to_fit(&mut self)
        requires
            old(self).is_valid(),
        ensures
            final(self).is_valid(),
            final(self).entries() == old(self).entries(),
            final(self).spec_len() == old(self).spec_len(),
    {
    }
}

/// A list is a storage keyed by position; removal goes through `remove_and_shiftfix`, so
/// that elements tracking positions stay correct.
impl<T: ListStorage> Storage for T where T::Element: MoveFix {
    type Key = usize;
    type Element = T::Element;

    open spec fn entries(&self) -> Map<usize, T::Element> {
        entries_of(self.slots())
    }

    open spec fn spec_len(&self) -> nat {
        self.slots().len()
    }

    open spec fn is_valid(&self) -> bool {
        self.well_formed()
    }

    fn add(&mut self, element: T::Element) -> (r: usize) {
        let r = ListStorage::add(self, element);
        let _len_after = ListStorage::len(self);
        proof {
            assert(entries_of(self.slots()) =~= entries_of(old(self).slots()).insert(r, element));
            if r == old(self).slots().len() {
                lemma_live_count_push(old(self).slots(), element);
            } else {
                lemma_live_count_fill(old(self).slots(), r as int, element);
            }
            lemma_entries_count(old(self).slots());
            lemma_entries_count(self.slots());
        }
        r
    }

    fn remove(&mut self, key: &usize) -> (r: T::Element) {
        let _len_before = ListStorage::len(self);
        let r = self.remove_and_shiftfix(*key);
        let _len_after = ListStorage::len(self);
        proof {
            let before = old(self).slots();
            let k = *key as int;
            lemma_entries_count(before);
            lemma_entries_count(self.slots());
            if occupancy(self.slots()) == occupancy(before.remove(k)) {
                lemma_live_count_occupancy(self.slots(), before.remove(k));
                lemma_live_count_remove(before, k);
            } else {
                lemma_live_count_occupancy(self.slots(), before.update(k, None));
                lemma_live_count_vacate(before, k);
            }
        }
        r
    }

    fn len(&self) -> (r: usize) {
        ListStorage::len(self)
    }

    fn with_capacity(capacity: usize) -> (r: Self) {
        let r = <T as ListStorage>::with_capacity(capacity);
        assert(entries_of(r.slots()) =~= Map::<usize, T::Element>::empty());
        r
    }

    fn get_unchecked(&self, key: &usize) -> (r: &T::Element) {
        ListStorage::get_unchecked(self, *key)
    }

    fn get_unchecked_mut(&mut self, key: &usize) -> (r: &mut T::Element) {
        proof {
            let s = self.slots();
            assert forall|x: T::Element| #[trigger] entries_of(s.update(*key as int, Some(x))) == entries_of(s).insert(*key, x) by {
                assert(entries_of(s.update(*key as int, Some(x))) =~= entries_of(s).insert(*key, x));
            }
        }
        ListStorage::get_unchecked_mut(self, *key)
    }

    fn contains_key(&self, key: &usize) -> (r: bool) {
        ListStorage::len(self) > *key && self.is_occupied(*key)
    }

    fn capacity(&self) -> (r: usize) {
        ListStorage::capacity(self)
    }

    fn reserve(&mut self, additional: usize) {
        ListStorage::reserve(self, additional)
    }

    fn shrink_to_fit(&mut self) {
        ListStorage::shrink_to_fit(self)
    }
}

} // verus!
