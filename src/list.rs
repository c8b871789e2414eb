use vstd::prelude::*;
use crate::iter::{IntoMutIterator, IntoRefIterator};

verus! {

/// Marks each position of a list as occupied (`true`) or vacant (`false`).
pub open spec fn occupancy<T>(slots: Seq<Option<T>>) -> Seq<bool> {
    slots.map_values(|o: Option<T>| o is Some)
}

/// Every position of the list holds an element.
pub open spec fn all_occupied<T>(slots: Seq<Option<T>>) -> bool {
    forall|i: int| 0 <= i < slots.len() ==> (#[trigger] slots[i]) is Some
}

/// The slots of a list in which every position is occupied.
pub open spec fn present<T>(elements: Seq<T>) -> Seq<Option<T>> {
    elements.map_values(|e: T| Some(e))
}

/// The vacant positions of a list.
pub open spec fn holes_of<T>(slots: Seq<Option<T>>) -> Set<int> {
    Set::new(|i: int| 0 <= i < slots.len() && slots[i] is None)
}

/// The number of positions of a list that hold an element.
pub open spec fn live_count<T>(slots: Seq<Option<T>>) -> int {
    slots.len() - holes_of(slots).len()
}

/// The number of vacant positions is the number of `None`s among the slots.
pub proof fn lemma_holes_count<T>(s: Seq<Option<T>>)
    ensures
        holes_of(s).finite(),
        holes_of(s).len() == s.to_multiset().count(None),
    decreases s.len(),
{
    broadcast use vstd::seq_lib::group_to_multiset_ensures, vstd::multiset::group_multiset_properties, vstd::set::group_set_axioms;

    if s.len() == 0 {
        assert(holes_of(s) =~= Set::<int>::empty());
    } else {
        let t = s.drop_last();
        lemma_holes_count(t);
        assert(s =~= t.push(s.last()));
        if s.last() is None {
            assert(holes_of(s) =~= holes_of(t).insert(s.len() - 1));
        } else {
            assert(holes_of(s) =~= holes_of(t));
        }
    }
}

/// Filling a vacant position makes one more live element.
pub proof fn lemma_live_count_fill<T>(slots: Seq<Option<T>>, k: int, v: T)
    requires
        0 <= k < slots.len(),
        slots[k] is None,
    ensures
        live_count(slots.update(k, Some(v))) == live_count(slots) + 1,
{
    broadcast use vstd::set::group_set_axioms;

    lemma_holes_count(slots);
    assert(holes_of(slots.update(k, Some(v))) =~= holes_of(slots).remove(k));
}

/// Vacating an occupied position makes one live element fewer.
pub proof fn lemma_live_count_vacate<T>(slots: Seq<Option<T>>, k: int)
    requires
        0 <= k < slots.len(),
        slots[k] is Some,
    ensures
        live_count(slots.update(k, None)) == live_count(slots) - 1,
{
    broadcast use vstd::set::group_set_axioms;

    lemma_holes_count(slots);
    assert(holes_of(slots.update(k, None)) =~= holes_of(slots).insert(k));
}

/// Appending an element makes one more live element.
pub proof fn lemma_live_count_push<T>(slots: Seq<Option<T>>, v: T)
    ensures
        live_count(slots.push(Some(v))) == live_count(slots) + 1,
{
    lemma_holes_count(slots);
    assert(holes_of(slots.push(Some(v))) =~= holes_of(slots));
}

/// Removing an occupied position makes one live element fewer.
pub proof fn lemma_live_count_remove<T>(slots: Seq<Option<T>>, k: int)
    requires
        0 <= k < slots.len(),
        slots[k] is Some,
    ensures
        live_count(slots.remove(k)) == live_count(slots) - 1,
{
    broadcast use vstd::seq_lib::group_to_multiset_ensures, vstd::multiset::group_multiset_properties;

    lemma_holes_count(slots);
    lemma_holes_count(slots.remove(k));
    assert(slots.remove(k).to_multiset() == slots.to_multiset().remove(slots[k]));
}

/// Lists with the same occupied positions have the same number of live elements.
pub proof fn lemma_live_count_occupancy<T>(a: Seq<Option<T>>, b: Seq<Option<T>>)
    requires
        occupancy(a) == occupancy(b),
    ensures
        live_count(a) == live_count(b),
{
    assert(a.len() == occupancy(a).len());
    assert(b.len() == occupancy(b).len());
    assert(holes_of(a) =~= holes_of(b)) by {
        assert forall|i: int| 0 <= i < a.len() implies (a[i] is None <==> b[i] is None) by {
            assert(occupancy(a)[i] == occupancy(b)[i]);
            assert(occupancy(a)[i] == (a[i] is Some));
            assert(occupancy(b)[i] == (b[i] is Some));
        }
    }
}

/// Every element of `slots` after being told that the positions from `shifted_from` on
/// moved by `shifted_by`.
pub open spec fn shifted_all<E: MoveFix>(slots: Seq<Option<E>>, shifted_from: usize, shifted_by: isize) -> Seq<Option<E>> {
    slots.map_values(
        |o: Option<E>|
            match o {
                Some(e) => Some(e.shifted(shifted_from, shifted_by)),
                None => None,
            },
    )
}

/// Each position of `after` holds the element at the same position of `before`, either as
/// it was or told once that positions from some point on moved by `shifted_by`.
pub open spec fn kept_or_shifted<E: MoveFix>(before: Seq<Option<E>>, after: Seq<Option<E>>, shifted_by: isize) -> bool {
    &&& after.len() == before.len()
    &&& forall|i: int|
        0 <= i < before.len() ==> #[trigger] after[i] == before[i] || (before[i] is Some && exists|from: usize|
            after[i] == Some(before[i].unwrap().shifted(from, shifted_by)))
}

/// Shifting every element keeps or shifts each one.
pub proof fn lemma_shifted_all_kept<E: MoveFix>(slots: Seq<Option<E>>, shifted_from: usize, shifted_by: isize)
    ensures
        kept_or_shifted(slots, shifted_all(slots, shifted_from, shifted_by), shifted_by),
{
    assert forall|i: int| 0 <= i < slots.len() implies #[trigger] shifted_all(slots, shifted_from, shifted_by)[i]
        == slots[i] || (slots[i] is Some && exists|from: usize|
        shifted_all(slots, shifted_from, shifted_by)[i] == Some(slots[i].unwrap().shifted(from, shifted_by))) by {
        if slots[i] is Some {
            assert(shifted_all(slots, shifted_from, shifted_by)[i] == Some(slots[i].unwrap().shifted(shifted_from, shifted_by)));
        }
    }
}

/// Elements which store positions of their siblings, and which must be told when those
/// positions change.
///
/// A list calls these hooks on each element that it holds, after a mutation that moved
/// elements around; consumers never call them directly.
pub trait MoveFix: Sized {
    /// The element after being told that every position at or after `shifted_from` moved
    /// by `shifted_by`.
    spec fn shifted(&self, shifted_from: usize, shifted_by: isize) -> Self;

    /// The element after being told that the element at `previous_index` now lives at
    /// `current_index`.
    spec fn moved(&self, previous_index: usize, current_index: usize) -> Self;

    /// Every position at or after `shifted_from` moved by `shifted_by` (negative after a
    /// removal, positive after an insertion).
    fn fix_shift(&mut self, shifted_from: usize, shifted_by: isize)
        requires
            shifted_by != 0,
        ensures
            *final(self) == old(self).shifted(shifted_from, shifted_by),
    ;

    /// The element at `previous_index` now lives at `current_index`.
    fn fix_move(&mut self, previous_index: usize, current_index: usize)
        ensures
            *final(self) == old(self).moved(previous_index, current_index),
    ;

    /// Every position at or after `shifted_from` moved left by `shifted_by`.
    fn fix_left_shift(&mut self, shifted_from: usize, shifted_by: usize)
        requires
            0 < shifted_by <= isize::MAX,
        ensures
            *final(self) == old(self).shifted(shifted_from, (-(shifted_by as int)) as isize),
    {
        self.fix_shift(shifted_from, -(shifted_by as isize));
    }

    /// Every position at or after `shifted_from` moved right by `shifted_by`.
    fn fix_right_shift(&mut self, shifted_from: usize, shifted_by: usize)
        requires
            0 < shifted_by <= isize::MAX,
        ensures
            *final(self) == old(self).shifted(shifted_from, shifted_by as isize),
    {
        self.fix_shift(shifted_from, shifted_by as isize);
    }
}

/// A wrapper for elements which do not track positions: both hooks do nothing.
#[derive(Copy, Clone, Debug, Default, PartialEq, Eq, PartialOrd, Ord, Hash)]
pub struct DummyMoveFix<T>(pub T);

impl<T> DummyMoveFix<T> {
    /// Unwraps the element.
    pub fn into_inner(self) -> (r: T)
        ensures
            r == self.0,
    {
        self.0
    }
}

impl<T> MoveFix for DummyMoveFix<T> {
    open spec fn shifted(&self, shifted_from: usize, shifted_by: isize) -> Self {
        *self
    }

    open spec fn moved(&self, previous_index: usize, current_index: usize) -> Self {
        *self
    }

    fn fix_shift(&mut self, shifted_from: usize, shifted_by: isize) {
    }

    fn fix_move(&mut self, previous_index: usize, current_index: usize) {
    }
}

impl<T> From<T> for DummyMoveFix<T> {
    fn from(op: T) -> (r: Self)
        ensures
            r.0 == op,
    {
        DummyMoveFix(op)
    }
}

impl<T> vstd::std_specs::convert::FromSpecImpl<T> for DummyMoveFix<T> {
    open spec fn obeys_from_spec() -> bool {
        true
    }

    open spec fn from_spec(v: T) -> Self {
        DummyMoveFix(v)
    }
}

/// List-like containers addressed by position, usable as backing storage.
///
/// The contents are seen as a sequence of slots: each position holds an element or is vacant.
/// Plain lists never have vacant positions; a sparse storage leaves them where elements
/// were removed.
pub trait ListStorage: Sized {
    /// The type of values in the container.
    type Element;

    /// The positions of the list, in order.
    spec fn slots(&self) -> Seq<Option<Self::Element>>;

    /// The container's internal invariant.
    spec fn well_formed(&self) -> bool;

    /// Whether plain removal (which shifts the positions after it) may take position `index`.
    spec fn removable_at(&self, index: int) -> bool;

    /// Whether the list may be cut down to its first `len` positions.
    spec fn truncatable(&self, len: int) -> bool;

    /// A list without vacant positions allows plain removal and cutting everywhere.
    proof fn lemma_dense_removable(&self, index: int)
        requires
            self.well_formed(),
            all_occupied(self.slots()),
            0 <= index < self.slots().len(),
        ensures
            self.removable_at(index),
            self.truncatable(index),
    ;

    /// Creates an empty collection with room for `capacity` elements.
    fn with_capacity(capacity: usize) -> (r: Self)
        ensures
            r.well_formed(),
            r.slots() == Seq::<Option<Self::Element>>::empty(),
    ;

    /// Inserts an element at position `index`, shifting all positions after it to the right.
    fn insert(&mut self, index: usize, element: Self::Element)
        requires
            old(self).well_formed(),
            index <= old(self).slots().len(),
            old(self).slots().len() < usize::MAX,
        ensures
            final(self).well_formed(),
            final(self).slots() == old(self).slots().insert(index as int, Some(element)),
    ;

    /// Removes and returns the element at position `index`, shifting all positions after it
    /// to the left.
    fn remove(&mut self, index: usize) -> (r: Self::Element)
        requires
            old(self).well_formed(),
            index < old(self).slots().len(),
            old(self).removable_at(index as int),
        ensures
            final(self).well_formed(),
            old(self).slots()[index as int] == Some(r),
            final(self).slots() == old(self).slots().remove(index as int),
    ;

    /// The number of positions, also referred to as the list's length.
    fn len(&self) -> (r: usize)
        requires
            self.well_formed(),
        ensures
            r == self.slots().len(),
    ;

    /// Whether position `index` holds an element.
    fn is_occupied(&self, index: usize) -> (r: bool)
        requires
            self.well_formed(),
            index < self.slots().len(),
        ensures
            r == self.slots()[index as int] is Some,
    ;

    /// The element at `index`, which must be in range and occupied.
    fn get_unchecked(&self, index: usize) -> (r: &Self::Element)
        requires
            self.well_formed(),
            index < self.slots().len(),
            self.slots()[index as int] is Some,
        ensures
            self.slots()[index as int] == Some(*r),
    ;

    /// The element at `index`, which must be in range and occupied, for mutation.
    fn get_unchecked_mut(&mut self, index: usize) -> (r: &mut Self::Element)
        requires
            old(self).well_formed(),
            index < old(self).slots().len(),
            old(self).slots()[index as int] is Some,
        ensures
            old(self).slots()[index as int] == Some(*r),
            final(self).well_formed(),
            final(self).slots() == old(self).slots().update(index as int, Some(*final(r))),
    ;

    /// The element at `index`, or `None` past the end; a vacant position in range is a
    /// contract violation.
    fn get(&self, index: usize) -> (r: Option<&Self::Element>)
        requires
            self.well_formed(),
            index < self.slots().len() ==> self.slots()[index as int] is Some,
        ensures
            match r {
                Some(x) => index < self.slots().len() && self.slots()[index as int] == Some(*x),
                None => index >= self.slots().len(),
            },
    {
        if self.len() > index {
            Some(self.get_unchecked(index))
        } else {
            None
        }
    }

    /// The element at `index` for mutation, or `None` past the end; a vacant position in
    /// range is a contract violation.
    fn get_mut(&mut self, index: usize) -> (r: Option<&mut Self::Element>)
        requires
            old(self).well_formed(),
            index < old(self).slots().len() ==> old(self).slots()[index as int] is Some,
        ensures
            final(self).well_formed(),
            match r {
                Some(x) => index < old(self).slots().len() && old(self).slots()[index as int] == Some(*x)
                    && final(self).slots() == old(self).slots().update(index as int, Some(*final(x))),
                None => index >= old(self).slots().len() && final(self).slots() == old(self).slots(),
            },
    {
        if self.len() > index {
            Some(self.get_unchecked_mut(index))
        } else {
            None
        }
    }

    /// Creates an empty collection.
    fn new() -> (r: Self)
        ensures
            r.well_formed(),
            r.slots() == Seq::<Option<Self::Element>>::empty(),
    {
        Self::with_capacity(0)
    }

    /// Whether the list has no positions at all.
    fn is_empty(&self) -> (r: bool)
        requires
            self.well_formed(),
        ensures
            r == (self.slots().len() == 0),
    {
        self.len() == 0
    }

    /// Appends an element to the back.
    fn push(&mut self, element: Self::Element)
        requires
            old(self).well_formed(),
            old(self).slots().len() < usize::MAX,
        ensures
            final(self).well_formed(),
            final(self).slots() == old(self).slots().push(Some(element)),
    ;

    /// Removes the last element and returns it, or `None` if the list is empty.
    fn pop(&mut self) -> (r: Option<Self::Element>)
        requires
            old(self).well_formed(),
            old(self).slots().len() > 0 ==> old(self).removable_at(old(self).slots().len() - 1),
        ensures
            final(self).well_formed(),
            old(self).slots().len() == 0 ==> r is None && final(self).slots() == old(self).slots(),
            old(self).slots().len() > 0 ==> r == old(self).slots().last()
                && final(self).slots() == old(self).slots().drop_last(),
    {
        if !self.is_empty() {
            let n = self.len();
            let e = self.remove(n - 1);
            assert(old(self).slots().remove(n - 1) =~= old(self).slots().drop_last());
            Some(e)
        } else {
            None
        }
    }

    /// The number of elements the list can hold without allocating.
    fn capacity(&self) -> (r: usize)
        requires
            self.well_formed(),
        ensures
            r >= self.slots().len(),
    {
        self.len()
    }

    /// Makes room for at least `additional` more elements.
    fn reserve(&mut self, additional: usize)
        requires
            old(self).well_formed(),
        ensures
            final(self).well_formed(),
            final(self).slots() == old(self).slots(),
    ;

    /// Gives back as much unused room as possible.
    fn shrink_to_fit(&mut self)
        requires
            old(self).well_formed(),
        ensures
            final(self).well_formed(),
            final(self).slots() == old(self).slots(),
    {
    }

    /// Drops every position from `len` on; does nothing if the list is not longer.
    fn truncate(&mut self, len: usize)
        requires
            old(self).well_formed(),
            len < old(self).slots().len() ==> old(self).truncatable(len as int),
        ensures
            final(self).well_formed(),
            len < old(self).slots().len() ==> final(self).slots() == old(self).slots().subrange(
                0,
                len as int,
            ),
            len >= old(self).slots().len() ==> final(self).slots() == old(self).slots(),
    ;

    /// What `insert_and_shiftfix(index, element)` makes of this list.
    spec fn inserted_and_fixed(&self, index: int, element: Self::Element, result: Self) -> bool
        where Self::Element: MoveFix
    ;

    /// What `remove_and_shiftfix(index)` makes of this list.
    spec fn removed_and_fixed(&self, index: int, result: Self) -> bool
        where Self::Element: MoveFix
    ;

    /// Inserts an element at `index` and tells the elements whose positions shifted.
    ///
    /// Every position then holds the corresponding element of the list with `element`
    /// inserted, either as it was or told once of a shift by one.
    fn insert_and_shiftfix(&mut self, index: usize, element: Self::Element)
        where Self::Element: MoveFix
        requires
            old(self).well_formed(),
            index <= old(self).slots().len(),
            old(self).slots().len() < usize::MAX,
        ensures
            final(self).well_formed(),
            old(self).inserted_and_fixed(index as int, element, *final(self)),
            kept_or_shifted(old(self).slots().insert(index as int, Some(element)), final(self).slots(), 1isize),
            occupancy(final(self).slots()) == occupancy(old(self).slots().insert(index as int, Some(element))),
    ;

    /// Removes the element at `index` and tells the remaining elements what moved.
    ///
    /// A plain list shifts the following positions to the left; a sparse storage leaves a
    /// vacant position behind instead. Every position then holds the corresponding element
    /// of that list, either as it was or told once of a shift by minus one.
    fn remove_and_shiftfix(&mut self, index: usize) -> (r: Self::Element)
        where Self::Element: MoveFix
        requires
            old(self).well_formed(),
            index < old(self).slots().len(),
            old(self).slots()[index as int] is Some,
        ensures
            final(self).well_formed(),
            old(self).slots()[index as int] == Some(r),
            old(self).removed_and_fixed(index as int, *final(self)),
            kept_or_shifted(old(self).slots().remove(index as int), final(self).slots(), -1isize)
                || kept_or_shifted(old(self).slots().update(index as int, None), final(self).slots(), -1isize),
            occupancy(final(self).slots()) == occupancy(old(self).slots().remove(index as int))
                || occupancy(final(self).slots()) == occupancy(old(self).slots().update(index as int, None)),
    ;

    /// Adds an element at an unspecified position, returning that position.
    fn add(&mut self, element: Self::Element) -> (r: usize)
        requires
            old(self).well_formed(),
            old(self).slots().len() < usize::MAX,
        ensures
            final(self).well_formed(),
            r < final(self).slots().len(),
            (r == old(self).slots().len() && final(self).slots() == old(self).slots().push(Some(element)))
                || (r < old(self).slots().len() && old(self).slots()[r as int] is None
                    && final(self).slots() == old(self).slots().update(r as int, Some(element))),
    {
        self.push(element);
        self.len() - 1
    }
}

/// List storages that can also be iterated over, by reference and by mutable reference.
pub trait List: ListStorage + for<'a> IntoRefIterator<'a, Item = <Self as ListStorage>::Element> + for<'a> IntoMutIterator<
    'a,
    Item = <Self as ListStorage>::Element,
> {

}

impl<T> List for T where
    T: ListStorage + for<'a> IntoRefIterator<'a, Item = <T as ListStorage>::Element> + for<'a> IntoMutIterator<
        'a,
        Item = <T as ListStorage>::Element,
    >,
 {

}

} // verus!
