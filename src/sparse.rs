use vstd::prelude::*;
use vstd::set_lib::{lemma_int_range, lemma_len_subset, set_int_range};
use crate::list::{all_occupied, kept_or_shifted, lemma_shifted_all_kept, occupancy, shifted_all, holes_of, lemma_holes_count, lemma_live_count_fill, lemma_live_count_push, lemma_live_count_vacate, live_count, ListStorage, MoveFix};

verus! {

#[derive(Debug)]
enum SlotInner<T> {
    /// A value in the slot.
    Element(T),
    /// A hole, with the position of the next one in the free list.
    Hole(Option<usize>),
}

/// A slot inside a sparse storage: an element, or a hole linked to the next hole.
#[derive(Debug)]
pub struct Slot<T>(SlotInner<T>);

impl<T> Slot<T> {
    /// The element held, or `None` for a hole.
    pub closed spec fn spec_element(self) -> Option<T> {
        match self.0 {
            SlotInner::Element(e) => Some(e),
            SlotInner::Hole(_) => None,
        }
    }

    fn new_element(val: T) -> (r: Self)
        ensures
            r.0 == SlotInner::Element(val),
    {
        Slot(SlotInner::Element(val))
    }

    fn new_hole(next: Option<usize>) -> (r: Self)
        ensures
            r.0 == SlotInner::<T>::Hole(next),
    {
        Slot(SlotInner::Hole(next))
    }

    fn is_element(&self) -> (r: bool)
        ensures
            r == self.0 is Element,
    {
        match &self.0 {
            SlotInner::Element(_) => true,
            SlotInner::Hole(_) => false,
        }
    }

    fn is_hole(&self) -> (r: bool)
        ensures
            r == self.0 is Hole,
    {
        match &self.0 {
            SlotInner::Element(_) => false,
            SlotInner::Hole(_) => true,
        }
    }

    fn element(&self) -> (r: &T)
        requires
            self.0 is Element,
        ensures
            self.0 == SlotInner::Element(*r),
    {
        match &self.0 {
            SlotInner::Element(x) => x,
            SlotInner::Hole(_) => {
                proof {
                    assert(false);
                }
                vstd::pervasive::unreached()
            },
        }
    }

    fn element_mut(&mut self) -> (r: &mut T)
        requires
            old(self).0 is Element,
        ensures
            old(self).0 == SlotInner::Element(*r),
            *final(self) == elem_slot(*final(r)),
    {
        match &mut self.0 {
            SlotInner::Element(x) => x,
            SlotInner::Hole(_) => {
                proof {
                    assert(false);
                }
                vstd::pervasive::unreached()
            },
        }
    }

    fn hole_link(&self) -> (r: Option<usize>)
        requires
            self.0 is Hole,
        ensures
            self.0 == SlotInner::<T>::Hole(r),
    {
        match &self.0 {
            SlotInner::Hole(l) => *l,
            SlotInner::Element(_) => {
                proof {
                    assert(false);
                }
                None
            },
        }
    }

    fn set_hole_link(&mut self, val: Option<usize>)
        requires
            old(self).0 is Hole,
        ensures
            final(self).0 == SlotInner::<T>::Hole(val),
    {
        self.0 = SlotInner::Hole(val);
    }

    fn unwrap(self) -> (r: T)
        requires
            self.0 is Element,
        ensures
            self.0 == SlotInner::Element(r),
    {
        match self.0 {
            SlotInner::Element(x) => x,
            SlotInner::Hole(_) => {
                proof {
                    assert(false);
                }
                vstd::pervasive::unreached()
            },
        }
    }

    /// Turns the slot into a hole linked to `next`, returning the element it held, or
    /// `None` (leaving it untouched) if it already was a hole.
    fn punch_hole(&mut self, next: Option<usize>) -> (r: Option<T>)
        ensures
            old(self).0 is Element ==> final(self).0 == SlotInner::<T>::Hole(next)
                && old(self).0 == SlotInner::Element(r.unwrap()) && r is Some,
            old(self).0 is Hole ==> *final(self) == *old(self) && r is None,
    {
        if self.is_element() {
            let mut taken = Slot::new_hole(next);
            core::mem::swap(self, &mut taken);
            Some(taken.unwrap())
        } else {
            None
        }
    }
}

spec fn raw_of<T>(slots: Seq<Option<T>>) -> Seq<T> {
    slots.map_values(|o: Option<T>| o.unwrap())
}

proof fn lemma_raw_update<T>(slots: Seq<Option<T>>, k: int, v: T)
    requires
        all_occupied(slots),
        0 <= k < slots.len(),
    ensures
        all_occupied(slots.update(k, Some(v))),
        raw_of(slots.update(k, Some(v))) == raw_of(slots).update(k, v),
{
    assert(raw_of(slots.update(k, Some(v))) =~= raw_of(slots).update(k, v));
}

proof fn lemma_raw_push<T>(slots: Seq<Option<T>>, v: T)
    requires
        all_occupied(slots),
    ensures
        all_occupied(slots.push(Some(v))),
        raw_of(slots.push(Some(v))) == raw_of(slots).push(v),
{
    assert(raw_of(slots.push(Some(v))) =~= raw_of(slots).push(v));
}

proof fn lemma_raw_insert<T>(slots: Seq<Option<T>>, k: int, v: T)
    requires
        all_occupied(slots),
        0 <= k <= slots.len(),
    ensures
        all_occupied(slots.insert(k, Some(v))),
        raw_of(slots.insert(k, Some(v))) == raw_of(slots).insert(k, v),
{
    assert(raw_of(slots.insert(k, Some(v))) =~= raw_of(slots).insert(k, v));
}

proof fn lemma_raw_remove<T>(slots: Seq<Option<T>>, k: int)
    requires
        all_occupied(slots),
        0 <= k < slots.len(),
    ensures
        all_occupied(slots.remove(k)),
        raw_of(slots.remove(k)) == raw_of(slots).remove(k),
{
    assert(raw_of(slots.remove(k)) =~= raw_of(slots).remove(k));
}

spec fn elem_slot<T>(x: T) -> Slot<T> {
    Slot(SlotInner::Element(x))
}

/// `free` lists the holes of `raw` in free-list order, each linked to the next, and
/// `hole_list` records their number, the first and the last.
spec fn free_list_ok<T>(raw: Seq<Slot<T>>, hole_list: Option<(usize, usize, usize)>, free: Seq<int>) -> bool {
    &&& free.no_duplicates()
    &&& forall|k: int| 0 <= k < free.len() ==> 0 <= #[trigger] free[k] < raw.len()
    &&& forall|i: int| 0 <= i < raw.len() ==> ((#[trigger] raw[i]).0 is Hole <==> free.contains(i))
    &&& forall|k: int|
        0 <= k < free.len() ==> (#[trigger] raw[free[k]]).0 == SlotInner::<T>::Hole(
            if k + 1 < free.len() {
                Some(free[k + 1] as usize)
            } else {
                None
            },
        )
    &&& match hole_list {
        None => free.len() == 0,
        Some((count, first, last)) => {
            &&& free.len() > 0
            &&& count == free.len()
            &&& first == free[0]
            &&& last == free.last()
        },
    }
}

/// Overwriting an element with another element keeps the free list intact.
proof fn lemma_free_list_set_element<T>(
    raw: Seq<Slot<T>>,
    hole_list: Option<(usize, usize, usize)>,
    free: Seq<int>,
    index: int,
    x: T,
)
    requires
        free_list_ok(raw, hole_list, free),
        0 <= index < raw.len(),
        raw[index].0 is Element,
    ensures
        free_list_ok(raw.update(index, elem_slot(x)), hole_list, free),
{
    let nr = raw.update(index, elem_slot(x));
    assert forall|k: int| 0 <= k < free.len() implies free[k] != index by {
        assert(raw[free[k]].0 is Hole);
    }
    assert forall|i: int| 0 <= i < nr.len() implies ((#[trigger] nr[i]).0 is Hole <==> free.contains(i)) by {
        if i == index {
            if free.contains(i) {
                let k = choose|k: int| 0 <= k < free.len() && free[k] == i;
                assert(free[k] != index);
            }
        }
    }
    assert forall|k: int| 0 <= k < free.len() implies (#[trigger] nr[free[k]]).0 == SlotInner::<T>::Hole(
        if k + 1 < free.len() {
            Some(free[k + 1] as usize)
        } else {
            None
        },
    ) by {
        assert(free[k] != index);
    }
}

spec fn hole_slot<T>(next: Option<usize>) -> Slot<T> {
    Slot(SlotInner::Hole(next))
}

/// The backing slots after the element at `index` became the last hole of the free list.
spec fn punched<T>(raw: Seq<Slot<T>>, free: Seq<int>, index: int) -> Seq<Slot<T>> {
    if free.len() > 0 {
        raw.update(index, hole_slot(None)).update(free.last(), hole_slot(Some(index as usize)))
    } else {
        raw.update(index, hole_slot(None))
    }
}

proof fn lemma_free_list_punch<T>(
    raw: Seq<Slot<T>>,
    hole_list: Option<(usize, usize, usize)>,
    free: Seq<int>,
    index: int,
)
    requires
        free_list_ok(raw, hole_list, free),
        0 <= index < raw.len(),
        raw.len() <= usize::MAX,
        raw[index].0 is Element,
    ensures
        free.len() + 1 <= raw.len(),
        free_list_ok(
            punched(raw, free, index),
            Some(((free.len() + 1) as usize, (if free.len() > 0 { free[0] } else { index }) as usize, index as usize)),
            free.push(index),
        ),
{
    let nf = free.push(index);
    let nr = punched(raw, free, index);
    assert(!free.contains(index));
    assert(nf.no_duplicates()) by {
        assert forall|a: int, b: int| 0 <= a < nf.len() && 0 <= b < nf.len() && a != b implies nf[a] != nf[b] by {
            if a < free.len() && b < free.len() {
                assert(free[a] != free[b]);
            } else if a < free.len() {
                assert(free.contains(free[a]));
            } else {
                assert(free.contains(free[b]));
            }
        }
    }
    let range = set_int_range(0, raw.len() as int);
    lemma_int_range(0, raw.len() as int);
    nf.unique_seq_to_set();
    assert forall|x: int| nf.to_set().contains(x) implies range.contains(x) by {
        let k = choose|k: int| 0 <= k < nf.len() && nf[k] == x;
        if k < free.len() {
            assert(0 <= free[k] < raw.len());
        }
    }
    lemma_len_subset(nf.to_set(), range);
    assert forall|i: int| 0 <= i < nr.len() implies ((#[trigger] nr[i]).0 is Hole <==> nf.contains(i)) by {
        if i == index {
            assert(nf[nf.len() - 1] == i);
        } else {
            assert(nr[i].0 is Hole <==> raw[i].0 is Hole);
            if free.contains(i) {
                let k = choose|k: int| 0 <= k < free.len() && free[k] == i;
                assert(nf[k] == i);
            }
            if nf.contains(i) {
                let k = choose|k: int| 0 <= k < nf.len() && nf[k] == i;
                assert(free[k] == i);
            }
        }
    }
    assert forall|k: int| 0 <= k < nf.len() implies 0 <= #[trigger] nf[k] < nr.len() by {
        if k < free.len() {
            assert(0 <= free[k] < raw.len());
        }
    }
    assert forall|k: int| 0 <= k < nf.len() implies (#[trigger] nr[nf[k]]).0 == SlotInner::<T>::Hole(
        if k + 1 < nf.len() {
            Some(nf[k + 1] as usize)
        } else {
            None
        },
    ) by {
        if k < free.len() {
            assert(nf[k] == free[k]);
            assert(raw[free[k]].0 is Hole);
            assert(free[k] != index);
            if k + 1 < free.len() {
                assert(free[k] != free.last()) by {
                    assert(free.last() == free[free.len() - 1]);
                }
            }
        }
    }
}

proof fn lemma_free_list_take<T>(
    raw: Seq<Slot<T>>,
    hole_list: Option<(usize, usize, usize)>,
    free: Seq<int>,
    x: T,
)
    requires
        free_list_ok(raw, hole_list, free),
        free.len() > 0,
        raw.len() <= usize::MAX,
    ensures
        raw[free[0]] == hole_slot::<T>(if free.len() > 1 { Some(free[1] as usize) } else { None }),
        free_list_ok(
            raw.update(free[0], elem_slot(x)),
            if free.len() > 1 {
                Some(((free.len() - 1) as usize, free[1] as usize, free.last() as usize))
            } else {
                None
            },
            free.drop_first(),
        ),
{
    let nf = free.drop_first();
    let h = free[0];
    let nr = raw.update(h, elem_slot(x));
    assert(raw[free[0]].0 == SlotInner::<T>::Hole(if 1 < free.len() { Some(free[1] as usize) } else { None }));
    assert forall|k: int| 0 <= k < nf.len() implies nf[k] != h by {
        assert(free[k + 1] != free[0]);
    }
    assert forall|i: int| 0 <= i < nr.len() implies ((#[trigger] nr[i]).0 is Hole <==> nf.contains(i)) by {
        if i == h {
            if nf.contains(i) {
                let k = choose|k: int| 0 <= k < nf.len() && nf[k] == i;
                assert(nf[k] != h);
            }
        } else {
            if free.contains(i) {
                let k = choose|k: int| 0 <= k < free.len() && free[k] == i;
                assert(k != 0);
                assert(nf[k - 1] == i);
            }
            if nf.contains(i) {
                let k = choose|k: int| 0 <= k < nf.len() && nf[k] == i;
                assert(free[k + 1] == i);
            }
        }
    }
    assert forall|k: int| 0 <= k < nf.len() implies 0 <= #[trigger] nf[k] < nr.len() by {
        assert(0 <= free[k + 1] < raw.len());
    }
    assert forall|k: int| 0 <= k < nf.len() implies (#[trigger] nr[nf[k]]).0 == SlotInner::<T>::Hole(
        if k + 1 < nf.len() {
            Some(nf[k + 1] as usize)
        } else {
            None
        },
    ) by {
        assert(nf[k] == free[k + 1]);
        assert(nf[k] != h);
        assert(raw[free[k + 1]].0 == SlotInner::<T>::Hole(if k + 2 < free.len() { Some(free[k + 2] as usize) } else { None }));
    }
    assert(nf.no_duplicates()) by {
        assert forall|a: int, b: int| 0 <= a < nf.len() && 0 <= b < nf.len() && a != b implies nf[a] != nf[b] by {
            assert(free[a + 1] != free[b + 1]);
        }
    }
    if free.len() > 1 {
        assert(nf.last() == free.last());
        assert(0 <= free[1] < raw.len());
    }
}

/// Where position `k` ends up after an insertion at `index`.
spec fn shift_index(k: int, index: int) -> int {
    if k >= index {
        k + 1
    } else {
        k
    }
}

/// A slot whose hole link is moved along with the positions after an insertion at `index`.
spec fn shift_slot<T>(s: Slot<T>, index: int) -> Slot<T> {
    match s.0 {
        SlotInner::Hole(Some(k)) => if k >= index {
            hole_slot(Some((k + 1) as usize))
        } else {
            s
        },
        _ => s,
    }
}

spec fn shift_hole_list(hole_list: Option<(usize, usize, usize)>, index: int) -> Option<(usize, usize, usize)> {
    match hole_list {
        None => None,
        Some((count, first, last)) => Some(
            (count, shift_index(first as int, index) as usize, shift_index(last as int, index) as usize),
        ),
    }
}

/// Every hole links to a position within the list.
proof fn lemma_links_in_range<T>(raw: Seq<Slot<T>>, hole_list: Option<(usize, usize, usize)>, free: Seq<int>, i: int)
    requires
        free_list_ok(raw, hole_list, free),
        0 <= i < raw.len(),
    ensures
        raw[i].0 matches SlotInner::Hole(Some(k)) ==> k < raw.len(),
{
    if raw[i].0 is Hole {
        assert(free.contains(i));
        let m = choose|m: int| 0 <= m < free.len() && free[m] == i;
        if m + 1 < free.len() {
            assert(0 <= free[m + 1] < raw.len());
        }
    }
}

/// Inserting an element and moving every link along with the positions keeps the free
/// list intact.
proof fn lemma_free_list_insert<T>(
    raw: Seq<Slot<T>>,
    hole_list: Option<(usize, usize, usize)>,
    free: Seq<int>,
    index: int,
    x: T,
)
    requires
        free_list_ok(raw, hole_list, free),
        0 <= index <= raw.len(),
        raw.len() < usize::MAX,
    ensures
        free_list_ok(
            raw.insert(index, elem_slot(x)).map_values(|s: Slot<T>| shift_slot(s, index)),
            shift_hole_list(hole_list, index),
            free.map_values(|k: int| shift_index(k, index)),
        ),
{
    let nr = raw.insert(index, elem_slot(x)).map_values(|s: Slot<T>| shift_slot(s, index));
    let nf = free.map_values(|k: int| shift_index(k, index));
    assert(nf.no_duplicates()) by {
        assert forall|a: int, b: int| 0 <= a < nf.len() && 0 <= b < nf.len() && a != b implies nf[a] != nf[b] by {
            assert(free[a] != free[b]);
        }
    }
    assert forall|k: int| 0 <= k < nf.len() implies 0 <= #[trigger] nf[k] < nr.len() by {
        assert(0 <= free[k] < raw.len());
    }
    assert forall|i: int| 0 <= i < nr.len() implies ((#[trigger] nr[i]).0 is Hole <==> nf.contains(i)) by {
        if i == index {
            if nf.contains(i) {
                let m = choose|m: int| 0 <= m < nf.len() && nf[m] == i;
                assert(nf[m] == shift_index(free[m], index));
            }
        } else {
            let p = if i < index { i } else { i - 1 };
            assert(nr[i] == shift_slot(raw[p], index));
            assert(nr[i].0 is Hole <==> raw[p].0 is Hole);
            if free.contains(p) {
                let m = choose|m: int| 0 <= m < free.len() && free[m] == p;
                assert(nf[m] == i);
            }
            if nf.contains(i) {
                let m = choose|m: int| 0 <= m < nf.len() && nf[m] == i;
                assert(free[m] == p);
            }
        }
    }
    assert forall|m: int| 0 <= m < nf.len() implies (#[trigger] nr[nf[m]]).0 == SlotInner::<T>::Hole(
        if m + 1 < nf.len() {
            Some(nf[m + 1] as usize)
        } else {
            None
        },
    ) by {
        let p = free[m];
        assert(raw[p].0 == SlotInner::<T>::Hole(if m + 1 < free.len() { Some(free[m + 1] as usize) } else { None }));
        if m + 1 < free.len() {
            assert(0 <= free[m + 1] < raw.len());
        }
        assert(nr[nf[m]] == shift_slot(raw[p], index));
    }
    if free.len() > 0 {
        assert(nf.last() == shift_index(free.last(), index));
        assert(0 <= free.last() < raw.len());
        assert(0 <= free[0] < raw.len());
    }
}

spec fn view_of<T>(raw: Seq<Slot<T>>) -> Seq<Option<T>> {
    raw.map_values(|s: Slot<T>| s.spec_element())
}

proof fn lemma_swap_multiset<A>(s: Seq<A>, a: int, b: int)
    requires
        0 <= a < s.len(),
        0 <= b < s.len(),
    ensures
        s.update(a, s[b]).update(b, s[a]).to_multiset() == s.to_multiset(),
{
    broadcast use vstd::seq_lib::group_to_multiset_ensures, vstd::multiset::group_multiset_properties;

    let t = s.update(a, s[b]);
    assert(t.to_multiset() == s.to_multiset().insert(s[b]).remove(s[a]));
    assert(t.update(b, s[a]).to_multiset() == t.to_multiset().insert(s[a]).remove(t[b]));
    assert(t.update(b, s[a]).to_multiset() =~= s.to_multiset());
}

/// The positions after removing the elements at `keys`, one after the other.
pub open spec fn vacate_all<T>(slots: Seq<Option<T>>, keys: Seq<int>) -> Seq<Option<T>>
    decreases keys.len(),
{
    if keys.len() == 0 {
        slots
    } else {
        vacate_all(slots, keys.drop_last()).update(keys.last(), None)
    }
}

/// Round trip: after `n` elements were added to an empty sparse storage (at keys `0..n`)
/// and removed again by key in any order, no element is live, and (for `n > 0`) there is
/// a hole for the next `add` to reuse.
pub proof fn law_round_trip<T>(elements: Seq<T>, order: Seq<int>)
    requires
        order.len() == elements.len(),
        order.no_duplicates(),
        forall|k: int| 0 <= k < order.len() ==> 0 <= #[trigger] order[k] < elements.len(),
    ensures
        live_count(vacate_all(crate::list::present(elements), order)) == 0,
        elements.len() > 0 ==> holes_of(vacate_all(crate::list::present(elements), order)).len() > 0,
{
    let start = crate::list::present(elements);
    lemma_vacate_all(start, order);
    let end = vacate_all(start, order);
    assert forall|i: int| 0 <= i < end.len() implies #[trigger] end[i] is None by {
        let range = set_int_range(0, order.len() as int);
        lemma_int_range(0, order.len() as int);
        order.unique_seq_to_set();
        assert(order.to_set().subset_of(range));
        vstd::set_lib::lemma_subset_equality(order.to_set(), range);
        assert(range.contains(i));
        assert(order.to_set().contains(i));
    }
    assert(holes_of(end) =~= set_int_range(0, end.len() as int));
    lemma_int_range(0, end.len() as int);
}

proof fn lemma_vacate_all<T>(slots: Seq<Option<T>>, keys: Seq<int>)
    requires
        forall|k: int| 0 <= k < keys.len() ==> 0 <= #[trigger] keys[k] < slots.len(),
    ensures
        vacate_all(slots, keys).len() == slots.len(),
        forall|i: int| 0 <= i < slots.len() && keys.contains(i) ==> (#[trigger] vacate_all(slots, keys)[i]) is None,
    decreases keys.len(),
{
    if keys.len() > 0 {
        let rest = keys.drop_last();
        assert forall|k: int| 0 <= k < rest.len() implies 0 <= #[trigger] rest[k] < slots.len() by {
            assert(rest[k] == keys[k]);
        }
        lemma_vacate_all(slots, rest);
        assert forall|i: int| 0 <= i < slots.len() && keys.contains(i) implies (#[trigger] vacate_all(slots, keys)[i]) is None by {
            if i != keys.last() {
                let k = choose|k: int| 0 <= k < keys.len() && keys[k] == i;
                assert(k < keys.len() - 1);
                assert(rest[k] == i);
            }
        }
    }
}

/// Some move in `moves` put an element at position `k`.
pub open spec fn moved_into(moves: Seq<(usize, usize)>, k: int) -> bool {
    exists|m: int| 0 <= m < moves.len() && moves[m].1 == k
}

/// Some move in `moves` started or ended at position `k`.
spec fn touched(moves: Seq<(usize, usize)>, k: int) -> bool {
    exists|m: int| 0 <= m < moves.len() && (moves[m].0 == k || moves[m].1 == k)
}

/// `new` is `old` compacted by `moves`: each move (previous, current) took the element at a
/// position past the end of `new` into a hole before it, and every other position that
/// `new` keeps holds what it held.
pub open spec fn compaction_of<T>(old: Seq<Option<T>>, new: Seq<Option<T>>, moves: Seq<(usize, usize)>) -> bool {
    &&& new.len() <= old.len()
    &&& all_occupied(new)
    &&& forall|m: int|
        0 <= m < moves.len() ==> {
            &&& (#[trigger] moves[m]).1 < new.len() <= moves[m].0 < old.len()
            &&& old[moves[m].1 as int] is None
            &&& new[moves[m].1 as int] == old[moves[m].0 as int]
        }
    &&& forall|a: int, b: int|
        0 <= a < b < moves.len() ==> (#[trigger] moves[a]).1 < (#[trigger] moves[b]).1 && moves[a].0 > moves[b].0
    &&& forall|k: int| 0 <= k < new.len() && !moved_into(moves, k) ==> #[trigger] new[k] == old[k]
}

/// The element after being told about each of `moves`, in order.
pub open spec fn moved_through<E: MoveFix>(e: E, moves: Seq<(usize, usize)>) -> E
    decreases moves.len(),
{
    if moves.len() == 0 {
        e
    } else {
        moved_through(e, moves.drop_last()).moved(moves.last().0, moves.last().1)
    }
}

/// Every element of `slots` after being told about each of `moves`.
pub open spec fn notified<E: MoveFix>(slots: Seq<Option<E>>, moves: Seq<(usize, usize)>) -> Seq<Option<E>> {
    slots.map_values(
        |o: Option<E>|
            match o {
                Some(e) => Some(moved_through(e, moves)),
                None => None,
            },
    )
}

/// Compacting a list without vacant positions changes nothing.
proof fn lemma_compaction_of_dense<T>(old: Seq<Option<T>>, new: Seq<Option<T>>, moves: Seq<(usize, usize)>)
    requires
        compaction_of(old, new, moves),
        new.len() == live_count(old),
    ensures
        all_occupied(old) ==> new == old && moves.len() == 0,
{
    if all_occupied(old) {
        if moves.len() > 0 {
            assert(old[moves[0].1 as int] is None);
        }
        assert(holes_of(old) =~= Set::<int>::empty());
        assert forall|k: int| 0 <= k < new.len() implies #[trigger] new[k] == old[k] by {
            if moved_into(moves, k) {
                let m = choose|m: int| 0 <= m < moves.len() && moves[m].1 == k;
                assert(old[moves[m].1 as int] is None);
            }
        }
        assert(new =~= old);
    }
}

/// One call on a sparse storage: an `add` that returned a key, or a removal by key.
pub enum SparseOp<E> {
    Add(usize, E),
    Remove(usize),
}

/// `next` is what the contracts of `add` and `remove_and_shiftfix` make of `current` for `op`.
pub open spec fn sparse_step<E>(current: Seq<Option<E>>, op: SparseOp<E>, next: Seq<Option<E>>) -> bool {
    match op {
        SparseOp::Add(k, e) => (k == current.len() && next == current.push(Some(e))) || (k < current.len()
            && current[k as int] is None && next == current.update(k as int, Some(e))),
        SparseOp::Remove(k) => k < current.len() && current[k as int] is Some && next == current.update(k as int, None),
    }
}

/// The number of additions in `ops`.
pub open spec fn num_adds<E>(ops: Seq<SparseOp<E>>) -> int
    decreases ops.len(),
{
    if ops.len() == 0 {
        0
    } else {
        num_adds(ops.drop_last()) + if ops.last() is Add { 1int } else { 0 }
    }
}

/// The number of removals in `ops`.
pub open spec fn num_removes<E>(ops: Seq<SparseOp<E>>) -> int
    decreases ops.len(),
{
    if ops.len() == 0 {
        0
    } else {
        num_removes(ops.drop_last()) + if ops.last() is Remove { 1int } else { 0 }
    }
}

/// The key added by `ops[i]` is removed by some call after it and before `n`.
pub open spec fn removed_after<E>(ops: Seq<SparseOp<E>>, i: int, n: int) -> bool {
    exists|j: int| i < j < n && ops[j] == SparseOp::<E>::Remove(ops[i]->Add_0)
}

/// Along any run of `add` and `remove_and_shiftfix` calls, the number of live elements
/// moves by the number of additions minus the number of removals, and an element added
/// under a key is found there, unchanged, until that key is removed.
pub proof fn law_live_count<E>(states: Seq<Seq<Option<E>>>, ops: Seq<SparseOp<E>>)
    requires
        states.len() == ops.len() + 1,
        forall|i: int| 0 <= i < ops.len() ==> sparse_step(states[i], #[trigger] ops[i], states[i + 1]),
    ensures
        live_count(states.last()) == live_count(states[0]) + num_adds(ops) - num_removes(ops),
        forall|i: int|
            0 <= i < ops.len() && (#[trigger] ops[i]) is Add && !removed_after(ops, i, ops.len() as int)
                ==> ops[i]->Add_0 < states.last().len() && states.last()[ops[i]->Add_0 as int] == Some(ops[i]->Add_1),
{
    lemma_run(states, ops, ops.len() as int);
    assert(ops.take(ops.len() as int) =~= ops);
}

proof fn lemma_run<E>(states: Seq<Seq<Option<E>>>, ops: Seq<SparseOp<E>>, n: int)
    requires
        states.len() == ops.len() + 1,
        forall|i: int| 0 <= i < ops.len() ==> sparse_step(states[i], #[trigger] ops[i], states[i + 1]),
        0 <= n <= ops.len(),
    ensures
        live_count(states[n]) == live_count(states[0]) + num_adds(ops.take(n)) - num_removes(ops.take(n)),
        forall|i: int|
            0 <= i < n && (#[trigger] ops[i]) is Add && !removed_after(ops, i, n) ==> ops[i]->Add_0 < states[n].len()
                && states[n][ops[i]->Add_0 as int] == Some(ops[i]->Add_1),
    decreases n,
{
    if n > 0 {
        let m = n - 1;
        lemma_run(states, ops, m);
        let cur = states[m];
        let next = states[n];
        let op = ops[m];
        assert(sparse_step(cur, op, next));
        assert(ops.take(n).drop_last() =~= ops.take(m));
        assert(ops.take(n).last() == op);
        match op {
            SparseOp::Add(k, e) => {
                if k == cur.len() {
                    lemma_live_count_push(cur, e);
                } else {
                    lemma_live_count_fill(cur, k as int, e);
                }
            },
            SparseOp::Remove(k) => {
                lemma_live_count_vacate(cur, k as int);
            },
        }
        assert forall|i: int|
            0 <= i < n && (#[trigger] ops[i]) is Add && !removed_after(ops, i, n) implies ops[i]->Add_0 < next.len()
                && next[ops[i]->Add_0 as int] == Some(ops[i]->Add_1) by {
            if i < m {
                if removed_after(ops, i, m) {
                    let j = choose|j: int| i < j < m && ops[j] == SparseOp::<E>::Remove(ops[i]->Add_0);
                    assert(removed_after(ops, i, n));
                }
                let k = ops[i]->Add_0;
                assert(cur[k as int] == Some(ops[i]->Add_1));
                if op == SparseOp::<E>::Remove(k) {
                    assert(removed_after(ops, i, n));
                }
            }
        }
    } else {
        assert(ops.take(0) =~= Seq::<SparseOp<E>>::empty());
    }
}

/// Links the holes at `keys`, in order, each to the next; the last links to nothing.
fn relink_holes<E, S: ListStorage<Element = Slot<E>>>(storage: &mut S, kept: &Vec<usize>)
    requires
        old(storage).well_formed(),
        all_occupied(old(storage).slots()),
        kept@.no_duplicates(),
        forall|m: int| 0 <= m < kept@.len() ==> (#[trigger] kept@[m]) < old(storage).slots().len(),
        forall|m: int| 0 <= m < kept@.len() ==> (#[trigger] raw_of(old(storage).slots())[kept@[m] as int]).0 is Hole,
    ensures
        final(storage).well_formed(),
        all_occupied(final(storage).slots()),
        raw_of(final(storage).slots()).len() == raw_of(old(storage).slots()).len(),
        forall|i: int|
            0 <= i < raw_of(old(storage).slots()).len() ==> ((#[trigger] raw_of(final(storage).slots())[i]).0 is Hole
                <==> raw_of(old(storage).slots())[i].0 is Hole),
        forall|i: int|
            0 <= i < raw_of(old(storage).slots()).len() && raw_of(old(storage).slots())[i].0 is Element ==> #[trigger] raw_of(
                final(storage).slots(),
            )[i] == raw_of(old(storage).slots())[i],
        forall|m: int|
            0 <= m < kept@.len() ==> raw_of(final(storage).slots())[#[trigger] kept@[m] as int] == hole_slot::<E>(
                if m + 1 < kept@.len() {
                    Some(kept@[m + 1])
                } else {
                    None
                },
            ),
{
    let ghost raw1 = raw_of(storage.slots());
    let ghost keys = kept@;
    let len = storage.len();
        let n = kept.len();
        let mut idx: usize = 0;
        while idx < n
            invariant
                storage.well_formed(),
                all_occupied(storage.slots()),
                raw_of(storage.slots()).len() == len,
                kept@ == keys,
                n == keys.len(),
                idx <= n,
                keys.no_duplicates(),
                forall|m: int| 0 <= m < keys.len() ==> (#[trigger] keys[m]) < len,
                forall|m: int| 0 <= m < keys.len() ==> (#[trigger] raw1[keys[m] as int]).0 is Hole,
                raw1.len() == len,
                forall|i: int| 0 <= i < len ==> ((#[trigger] raw_of(storage.slots())[i]).0 is Hole <==> raw1[i].0 is Hole),
                forall|i: int| 0 <= i < len && raw1[i].0 is Element ==> #[trigger] raw_of(storage.slots())[i] == raw1[i],
                forall|m: int|
                    0 <= m < idx ==> raw_of(storage.slots())[#[trigger] keys[m] as int] == hole_slot::<E>(
                        if m + 1 < keys.len() {
                            Some(keys[m + 1])
                        } else {
                            None
                        },
                    ),
            decreases n - idx,
        {
            let p = kept[idx];
            let link = if idx + 1 < n {
                Some(kept[idx + 1])
            } else {
                None
            };
            let ghost s0 = storage.slots();
            let ghost r0 = raw_of(storage.slots());
            proof {
                assert(keys[idx as int] == p);
                assert(p < len);
                assert(s0[p as int] == Some(r0[p as int]));
                lemma_raw_update(s0, p as int, hole_slot(link));
            }
            storage.get_unchecked_mut(p).set_hole_link(link);
            proof {
                assert(raw_of(storage.slots()) == r0.update(p as int, hole_slot(link)));
                assert forall|m: int|
                    0 <= m < idx + 1 implies raw_of(storage.slots())[#[trigger] keys[m] as int] == hole_slot::<E>(
                    if m + 1 < keys.len() {
                        Some(keys[m + 1])
                    } else {
                        None
                    },
                ) by {
                    if m < idx {
                        assert(keys[m] != keys[idx as int]);
                    }
                }
            }
            idx += 1;
        }
}

/// A wrapper around a list storage of slots which removes elements by punching holes
/// instead of shifting, so that the positions of the other elements stay valid.
///
/// Holes are kept in a free list and reused by `add`; `defragment` removes them.
#[derive(Clone, Copy)]
#[verifier::reject_recursive_types(E)]
pub struct SparseStorage<E, S: ListStorage<Element = Slot<E>>> {
    storage: S,
    /// Number of holes, first hole and last hole of the free list.
    hole_list: Option<(usize, usize, usize)>,
    /// The holes in free-list order.
    free: Ghost<Seq<int>>,
}

impl<E, S: ListStorage<Element = Slot<E>>> SparseStorage<E, S> {
    spec fn raw(&self) -> Seq<Slot<E>> {
        raw_of(self.storage.slots())
    }

    /// The holes in the order `add` reuses them: the earliest punched first.
    pub closed spec fn free_order(&self) -> Seq<int> {
        self.free@
    }

    /// The free list holds each hole exactly once.
    pub proof fn lemma_free_order(&self)
        requires
            self.well_formed(),
        ensures
            self.free_order().no_duplicates(),
            self.free_order().to_set() == holes_of(self.slots()),
            self.free_order().len() == holes_of(self.slots()).len(),
    {
        self.lemma_holes();
    }

    spec fn inv(&self) -> bool {
        &&& self.storage.well_formed()
        &&& all_occupied(self.storage.slots())
        &&& free_list_ok(self.raw(), self.hole_list, self.free@)
    }

    proof fn lemma_view(&self)
        requires
            self.inv(),
        ensures
            self.slots().len() == self.raw().len(),
            forall|i: int|
                0 <= i < self.raw().len() ==> #[trigger] self.slots()[i] == self.raw()[i].spec_element(),
            forall|i: int| 0 <= i < self.raw().len() ==> self.storage.slots()[i] == Some(#[trigger] self.raw()[i]),
    {
        assert forall|i: int| 0 <= i < self.raw().len() implies self.storage.slots()[i] == Some(#[trigger] self.raw()[i]) by {
            assert(self.storage.slots()[i] is Some);
        }
    }

    proof fn lemma_holes(&self)
        requires
            self.inv(),
        ensures
            self.free@.to_set() == holes_of(self.slots()),
            self.free@.len() == holes_of(self.slots()).len(),
            self.free@.len() <= self.slots().len(),
            holes_of(self.slots()).finite(),
    {
        self.lemma_view();
        let free = self.free@;
        assert(free.to_set() =~= holes_of(self.slots()));
        free.unique_seq_to_set();
        let range = set_int_range(0, self.slots().len() as int);
        lemma_int_range(0, self.slots().len() as int);
        assert(free.to_set().subset_of(range));
        lemma_len_subset(free.to_set(), range);
    }

    proof fn lemma_dense(&self)
        requires
            self.inv(),
            all_occupied(self.slots()),
        ensures
            self.free@.len() == 0,
            self.hole_list is None,
            forall|i: int| 0 <= i < self.raw().len() ==> (#[trigger] self.raw()[i]).0 is Element,
    {
        self.lemma_view();
        if self.free@.len() > 0 {
            let h = self.free@[0];
            assert(self.slots()[h] is Some);
        }
        assert forall|i: int| 0 <= i < self.raw().len() implies (#[trigger] self.raw()[i]).0 is Element by {
            assert(self.slots()[i] is Some);
        }
    }

    /// Moves the elements behind the holes into the holes, then cuts the holes off the end,
    /// returning each move as (previous position, current position).
    fn compact(&mut self) -> (moves: Vec<(usize, usize)>)
        requires
            old(self).inv(),
        ensures
            final(self).inv(),
            all_occupied(final(self).slots()),
            final(self).slots().len() == old(self).slots().len() - holes_of(old(self).slots()).len(),
            forall|e: E|
                #[trigger] final(self).slots().to_multiset().count(Some(e)) == old(self).slots().to_multiset().count(Some(e)),
            compaction_of(old(self).slots(), final(self).slots(), moves@),
            final(self).free_order() == Seq::<int>::empty(),
    {
        broadcast use vstd::seq_lib::group_to_multiset_ensures, vstd::multiset::group_multiset_properties;

        proof {
            self.lemma_view();
            self.lemma_holes();
            lemma_holes_count(self.slots());
        }
        let ghost raw0 = self.raw();
        let moves: Vec<(usize, usize)> = Vec::new();
        let mut moves = moves;
        let n = self.storage.len();
        let mut i: usize = 0;
        let mut j: usize = n;
        while i < j
            invariant
                self.storage.well_formed(),
                all_occupied(self.storage.slots()),
                self.storage.slots().len() == n,
                n == raw0.len(),
                0 <= i <= j <= n,
                forall|k: int| 0 <= k < i ==> (#[trigger] self.raw()[k]).0 is Element,
                forall|k: int| j <= k < n ==> (#[trigger] self.raw()[k]).0 is Hole,
                view_of(self.raw()).to_multiset() == view_of(raw0).to_multiset(),
                forall|m: int|
                    0 <= m < moves@.len() ==> {
                        &&& (#[trigger] moves@[m]).1 < i
                        &&& j <= moves@[m].0 < n
                        &&& view_of(raw0)[moves@[m].1 as int] is None
                        &&& view_of(self.raw())[moves@[m].1 as int] == view_of(raw0)[moves@[m].0 as int]
                    },
                forall|a: int, b: int|
                    0 <= a < b < moves@.len() ==> (#[trigger] moves@[a]).1 < (#[trigger] moves@[b]).1 && moves@[a].0
                        > moves@[b].0,
                forall|k: int| 0 <= k < n && !touched(moves@, k) ==> #[trigger] view_of(self.raw())[k] == view_of(raw0)[k],
            decreases j - i,
        {
            proof {
                assert(self.storage.slots()[i as int] == Some(self.raw()[i as int]));
                assert(self.storage.slots()[j - 1] == Some(self.raw()[j - 1]));
            }
            if self.storage.get_unchecked(i).is_element() {
                i += 1;
            } else if self.storage.get_unchecked(j - 1).is_hole() {
                j -= 1;
            } else {
                let ghost s0 = self.storage.slots();
                let ghost r0 = self.raw();
                let ghost m0 = moves@;
                proof {
                    assert(!touched(m0, i as int)) by {
                        if touched(m0, i as int) {
                            let m = choose|m: int| 0 <= m < m0.len() && (m0[m].0 == i || m0[m].1 == i);
                            assert(m0[m].1 < i && j <= m0[m].0);
                        }
                    }
                    assert(!touched(m0, j - 1)) by {
                        if touched(m0, j - 1) {
                            let m = choose|m: int| 0 <= m < m0.len() && (m0[m].0 == j - 1 || m0[m].1 == j - 1);
                            assert(m0[m].1 < i && j <= m0[m].0);
                        }
                    }
                    assert(view_of(r0)[i as int] == view_of(raw0)[i as int]);
                    assert(view_of(r0)[j - 1] == view_of(raw0)[j - 1]);
                }
                let mut tmp = Slot::new_hole(None);
                proof {
                    lemma_raw_update(s0, j - 1, hole_slot(None));
                }
                core::mem::swap(&mut tmp, self.storage.get_unchecked_mut(j - 1));
                let ghost s1 = self.storage.slots();
                proof {
                    lemma_raw_update(s1, i as int, r0[j - 1]);
                }
                core::mem::swap(&mut tmp, self.storage.get_unchecked_mut(i));
                let ghost s2 = self.storage.slots();
                proof {
                    lemma_raw_update(s2, j - 1, r0[i as int]);
                }
                core::mem::swap(&mut tmp, self.storage.get_unchecked_mut(j - 1));
                proof {
                    assert(self.raw() =~= r0.update(i as int, r0[j - 1]).update(j - 1, r0[i as int]));
                    assert(view_of(self.raw()) =~= view_of(r0).update(i as int, view_of(r0)[j - 1]).update(
                        j - 1,
                        view_of(r0)[i as int],
                    ));
                    lemma_swap_multiset(view_of(r0), i as int, j - 1);
                }
                moves.push((j - 1, i));
                proof {
                    let m1 = moves@;
                    let w = view_of(self.raw());
                    assert(m1 == m0.push(((j - 1) as usize, i)));
                    assert forall|k: int| 0 <= k < n && !touched(m1, k) implies #[trigger] w[k] == view_of(raw0)[k] by {
                        assert(k != i && k != j - 1) by {
                            assert(m1[m0.len() as int] == ((j - 1) as usize, i));
                        }
                        if touched(m0, k) {
                            let m = choose|m: int| 0 <= m < m0.len() && (m0[m].0 == k || m0[m].1 == k);
                            assert(m1[m] == m0[m]);
                        }
                        assert(view_of(r0)[k] == view_of(raw0)[k]);
                    }
                    assert forall|m: int| 0 <= m < m1.len() implies {
                        &&& (#[trigger] m1[m]).1 < i + 1
                        &&& j - 1 <= m1[m].0 < n
                        &&& view_of(raw0)[m1[m].1 as int] is None
                        &&& w[m1[m].1 as int] == view_of(raw0)[m1[m].0 as int]
                    } by {
                        if m < m0.len() {
                            assert(m1[m] == m0[m]);
                            assert(m0[m].1 != i && m0[m].1 != j - 1);
                        }
                    }
                    assert forall|a: int, b: int| 0 <= a < b < m1.len() implies (#[trigger] m1[a]).1 < (#[trigger] m1[b]).1
                        && m1[a].0 > m1[b].0 by {
                        assert(m1[a] == m0[a]);
                        if b < m0.len() {
                            assert(m1[b] == m0[b]);
                        }
                    }
                }
                i += 1;
                j -= 1;
            }
        }
        let ghost swapped = self.raw();
        proof {
            if i < self.storage.slots().len() {
                self.storage.lemma_dense_removable(i as int);
            }
        }
        self.storage.truncate(i);
        self.hole_list = None;
        self.free = Ghost(Seq::empty());
        proof {
            let v = view_of(swapped);
            let prefix = v.subrange(0, i as int);
            let suffix = v.subrange(i as int, n as int);
            assert(self.raw() =~= swapped.subrange(0, i as int));
            assert(self.slots() =~= prefix);
            assert(prefix + suffix =~= v);
            vstd::seq_lib::lemma_multiset_commutative(prefix, suffix);
            assert forall|k: int| 0 <= k < prefix.len() implies (#[trigger] prefix[k]) is Some by {
                assert(swapped[k].0 is Element);
            }
            assert(holes_of(suffix) =~= set_int_range(0, suffix.len() as int)) by {
                assert forall|k: int| 0 <= k < suffix.len() implies (#[trigger] suffix[k]) is None by {
                    assert(swapped[i + k].0 is Hole);
                }
            }
            lemma_int_range(0, suffix.len() as int);
            lemma_holes_count(suffix);
            assert(holes_of(prefix) =~= Set::<int>::empty());
            lemma_holes_count(prefix);
            let mv = moves@;
            assert forall|k: int| 0 <= k < prefix.len() && !moved_into(mv, k) implies #[trigger] prefix[k] == view_of(raw0)[k] by {
                if touched(mv, k) {
                    let m = choose|m: int| 0 <= m < mv.len() && (mv[m].0 == k || mv[m].1 == k);
                    assert(mv[m].0 >= i);
                    assert(moved_into(mv, k));
                }
                assert(prefix[k] == v[k]);
            }
            assert forall|m: int| 0 <= m < mv.len() implies {
                &&& (#[trigger] mv[m]).1 < prefix.len() <= mv[m].0 < view_of(raw0).len()
                &&& view_of(raw0)[mv[m].1 as int] is None
                &&& prefix[mv[m].1 as int] == view_of(raw0)[mv[m].0 as int]
            } by {
                assert(prefix[mv[m].1 as int] == v[mv[m].1 as int]);
            }
            assert forall|e: E| #[trigger] suffix.to_multiset().count(Some(e)) == 0 by {
                if suffix.to_multiset().count(Some(e)) > 0 {
                    assert(suffix.contains(Some(e)));
                    let k = choose|k: int| 0 <= k < suffix.len() && suffix[k] == Some(e);
                    assert(swapped[i + k].0 is Hole);
                }
            }
        }
        moves
    }

    /// The holes before position `len`, in free-list order.
    fn surviving_holes(&self, len: usize) -> (kept: Vec<usize>)
        requires
            self.inv(),
            len < self.raw().len(),
        ensures
            kept@.no_duplicates(),
            forall|m: int| 0 <= m < kept@.len() ==> (#[trigger] kept@[m]) < len && self.raw()[kept@[m] as int].0 is Hole,
            forall|i: int| 0 <= i < len && (#[trigger] self.raw()[i]).0 is Hole ==> kept@.contains(i as usize),
    {
        proof {
            self.lemma_view();
            self.lemma_holes();
        }
        let ghost raw0 = self.raw();
        let ghost free0 = self.free@;
        let ghost hl0 = self.hole_list;
        let total = self.storage.len();
        let (count, first) = match self.hole_list {
            Some((count, first, _)) => (count, first),
            None => (0, 0),
        };
        let mut kept: Vec<usize> = Vec::new();
        let mut cur: usize = first;
        let mut step: usize = 0;
        while step < count
            invariant
                self.inv(),
                self.raw() == raw0,
                self.free@ == free0,
                self.hole_list == hl0,
                free_list_ok(raw0, hl0, free0),
                count == free0.len(),
                len < raw0.len(),
                raw0.len() <= usize::MAX,
                step <= count,
                step < count ==> cur == free0[step as int],
                forall|m: int| 0 <= m < kept@.len() ==> (#[trigger] kept@[m]) < len,
                kept@.no_duplicates(),
                forall|m: int| 0 <= m < kept@.len() ==> free0.take(step as int).contains(#[trigger] kept@[m] as int),
                forall|t: int| 0 <= t < step && free0[t] < len ==> kept@.contains(#[trigger] free0[t] as usize),
            decreases count - step,
        {
            proof {
                self.lemma_view();
                assert(0 <= free0[step as int] < raw0.len());
                assert(raw0[free0[step as int]].0 == SlotInner::<E>::Hole(
                    if step + 1 < free0.len() {
                        Some(free0[step + 1] as usize)
                    } else {
                        None
                    },
                ));
                if step + 1 < free0.len() {
                    assert(0 <= free0[step + 1] < raw0.len());
                }
                assert(raw0[cur as int].0 is Hole);
            }
            let next = self.storage.get_unchecked(cur).hole_link();
            let ghost before = kept@;
            if cur < len {
                proof {
                    assert(!before.contains(cur)) by {
                        if before.contains(cur) {
                            let m = choose|m: int| 0 <= m < before.len() && before[m] == cur;
                            assert(free0.take(step as int).contains(before[m] as int));
                            let t = choose|t: int| 0 <= t < step && free0.take(step as int)[t] == before[m] as int;
                            assert(free0[t] == free0[step as int]);
                        }
                    }
                }
                kept.push(cur);
            }
            proof {
                assert forall|m: int| 0 <= m < kept@.len() implies free0.take(step + 1).contains(#[trigger] kept@[m] as int) by {
                    if m < before.len() {
                        assert(kept@[m] == before[m]);
                        let t = choose|t: int| 0 <= t < step && free0.take(step as int)[t] == before[m] as int;
                        assert(free0.take(step + 1)[t] == before[m] as int);
                    } else {
                        assert(free0.take(step + 1)[step as int] == cur as int);
                    }
                }
                assert forall|t: int| 0 <= t < step + 1 && free0[t] < len implies kept@.contains(#[trigger] free0[t] as usize) by {
                    if t < step {
                        let m = choose|m: int| 0 <= m < before.len() && before[m] == free0[t] as usize;
                        assert(kept@[m] == before[m]);
                    } else {
                        assert(kept@[kept@.len() - 1] == cur);
                    }
                }
                assert(kept@.no_duplicates()) by {
                    assert forall|x: int, y: int| 0 <= x < kept@.len() && 0 <= y < kept@.len() && x != y implies kept@[x]
                        != kept@[y] by {
                        if x < before.len() && y < before.len() {
                            assert(before[x] != before[y]);
                        } else if x < before.len() {
                            assert(before.contains(before[x]));
                        } else if y < before.len() {
                            assert(before.contains(before[y]));
                        }
                    }
                }
            }
            cur = match next {
                Some(n) => n,
                None => cur,
            };
            step += 1;
        }
        proof {
            assert(free0.take(count as int) =~= free0);
            assert forall|m: int| 0 <= m < kept@.len() implies (#[trigger] kept@[m]) < len && raw0[kept@[m] as int].0 is Hole by {
                let t = choose|t: int| 0 <= t < free0.take(count as int).len() && free0.take(count as int)[t] == kept@[m] as int;
                assert(free0[t] == kept@[m] as int);
            }
            assert forall|i: int| 0 <= i < len && (#[trigger] raw0[i]).0 is Hole implies kept@.contains(i as usize) by {
                assert(free0.contains(i));
                let t = choose|t: int| 0 <= t < free0.len() && free0[t] == i;
            }
        }
        kept
    }

    /// Removes all holes, *without* telling the elements where they moved.
    ///
    /// The elements that remain are those that were there before, in some order.
    pub fn defragment(&mut self)
        requires
            old(self).well_formed(),
        ensures
            final(self).well_formed(),
            all_occupied(final(self).slots()),
            final(self).slots().len() == live_count(old(self).slots()),
            forall|e: E|
                #[trigger] final(self).slots().to_multiset().count(Some(e)) == old(self).slots().to_multiset().count(Some(e)),
            exists|moves: Seq<(usize, usize)>| compaction_of(old(self).slots(), final(self).slots(), moves),
            all_occupied(old(self).slots()) ==> final(self).slots() == old(self).slots(),
            final(self).free_order() == Seq::<int>::empty(),
    {
        let moves = self.compact();
        proof {
            lemma_compaction_of_dense(old(self).slots(), self.slots(), moves@);
        }
    }

    /// Removes all holes, telling every element about each element that moved: the
    /// elements that remain are those of a compaction, each told about every move in order.
    pub fn defragment_and_fix(&mut self)
        where E: MoveFix
        requires
            old(self).well_formed(),
        ensures
            final(self).well_formed(),
            all_occupied(final(self).slots()),
            final(self).slots().len() == live_count(old(self).slots()),
            exists|moves: Seq<(usize, usize)>, compacted: Seq<Option<E>>|
                compaction_of(old(self).slots(), compacted, moves) && final(self).slots() == notified(compacted, moves)
                    && forall|e: E|
                    #[trigger] compacted.to_multiset().count(Some(e)) == old(self).slots().to_multiset().count(Some(e)),
            all_occupied(old(self).slots()) ==> final(self).slots() == old(self).slots(),
            final(self).free_order() == Seq::<int>::empty(),
    {
        let moves = self.compact();
        let ghost compacted = self.slots();
        let ghost mv = moves@;
        let ghost len = self.slots().len();
        proof {
            lemma_compaction_of_dense(old(self).slots(), compacted, mv);
            assert(mv.take(0) =~= Seq::<(usize, usize)>::empty());
            assert(self.slots() =~= notified(compacted, mv.take(0)));
        }
        let mut m: usize = 0;
        while m < moves.len()
            invariant
                self.well_formed(),
                all_occupied(self.slots()),
                all_occupied(compacted),
                self.slots().len() == len,
                compacted.len() == len,
                mv == moves@,
                m <= mv.len(),
                self.slots() == notified(compacted, mv.take(m as int)),
                self.free_order() == Seq::<int>::empty(),
            decreases moves.len() - m,
        {
            let (from, to) = moves[m];
            let ghost upto = mv.take(m as int);
            let ghost next = mv.take(m + 1);
            proof {
                assert(next.drop_last() =~= upto);
                assert(next.last() == mv[m as int]);
            }
            let n = self.len();
            let mut k: usize = 0;
            while k < n
                invariant
                    self.well_formed(),
                    all_occupied(compacted),
                    self.slots().len() == len,
                    compacted.len() == len,
                    n == len,
                    k <= n,
                    next.drop_last() == upto,
                    next.last() == (from, to),
                    next.len() > 0,
                    forall|x: int|
                        0 <= x < len ==> #[trigger] self.slots()[x] == (if x < k {
                            notified(compacted, next)[x]
                        } else {
                            notified(compacted, upto)[x]
                        }),
                    self.free_order() == Seq::<int>::empty(),
                decreases n - k,
            {
                let ghost before = self.slots();
                proof {
                    assert(before[k as int] == notified(compacted, upto)[k as int]);
                    assert(compacted[k as int] is Some);
                }
                let e = self.get_unchecked_mut(k);
                e.fix_move(from, to);
                proof {
                    assert(moved_through(compacted[k as int].unwrap(), next) == moved_through(compacted[k as int].unwrap(), upto).moved(
                        from,
                        to,
                    ));
                    assert forall|x: int| 0 <= x < len implies #[trigger] self.slots()[x] == (if x < k + 1 {
                        notified(compacted, next)[x]
                    } else {
                        notified(compacted, upto)[x]
                    }) by {
                        if x != k {
                            assert(self.slots()[x] == before[x]);
                        }
                    }
                }
                k += 1;
            }
            proof {
                assert(self.slots() =~= notified(compacted, next));
                assert forall|x: int| 0 <= x < self.slots().len() implies (#[trigger] self.slots()[x]) is Some by {
                    assert(compacted[x] is Some);
                }
            }
            m += 1;
        }
        proof {
            assert(mv.take(mv.len() as int) =~= mv);
            if all_occupied(old(self).slots()) {
                assert(mv.len() == 0) by {
                    if mv.len() > 0 {
                        assert(old(self).slots()[mv[0].1 as int] is None);
                    }
                }
                assert(notified(compacted, mv) =~= compacted) by {
                    assert forall|x: int| 0 <= x < compacted.len() implies #[trigger] notified(compacted, mv)[x] == compacted[x] by {
                        assert(compacted[x] is Some);
                    }
                }
            }
        }
    }

    /// Consumes the sparse storage and returns its backing storage.
    pub fn into_inner(self) -> (r: S)
        requires
            self.well_formed(),
        ensures
            r.well_formed(),
            r.slots().len() == self.slots().len(),
            forall|i: int|
                0 <= i < r.slots().len() ==> (#[trigger] r.slots()[i]) is Some
                    && r.slots()[i].unwrap().spec_element() == self.slots()[i],
    {
        proof {
            self.lemma_view();
        }
        self.storage
    }

    /// The number of holes, read from the maintained counter.
    pub fn num_holes(&self) -> (r: usize)
        requires
            self.well_formed(),
        ensures
            r == holes_of(self.slots()).len(),
    {
        proof {
            self.lemma_holes();
        }
        match self.hole_list {
            Some((count, _, _)) => count,
            None => 0,
        }
    }

    /// Whether the storage has no holes.
    pub fn is_dense(&self) -> (r: bool)
        requires
            self.well_formed(),
        ensures
            r == all_occupied(self.slots()),
            r == (holes_of(self.slots()).len() == 0),
    {
        proof {
            self.lemma_holes();
            self.lemma_view();
            if self.free@.len() > 0 {
                assert(holes_of(self.slots()).contains(self.free@[0]));
            } else {
                assert forall|i: int| 0 <= i < self.slots().len() implies (#[trigger] self.slots()[i]) is Some by {
                    if self.slots()[i] is None {
                        assert(holes_of(self.slots()).contains(i));
                    }
                }
            }
        }
        self.num_holes() == 0
    }

    /// Turns the element at `index` into a hole appended to the free list, returning the
    /// element, or `None` (changing nothing) if the position already was a hole.
    fn punch_hole(&mut self, index: usize) -> (r: Option<E>)
        requires
            old(self).inv(),
            index < old(self).slots().len(),
        ensures
            final(self).inv(),
            r == old(self).slots()[index as int],
            final(self).slots() == old(self).slots().update(index as int, None),
            r is Some ==> final(self).free_order() == old(self).free_order().push(index as int),
    {
        proof {
            self.lemma_view();
            self.lemma_holes();
        }
        let n = self.storage.len();
        let ghost raw0 = self.raw();
        let ghost slots0 = self.storage.slots();
        let ghost free = self.free@;
        proof {
            if raw0[index as int].0 is Element {
                lemma_free_list_punch(raw0, self.hole_list, free, index as int);
            }
            lemma_raw_update(slots0, index as int, hole_slot(None));
            lemma_raw_update(slots0, index as int, raw0[index as int]);
        }
        let val = match self.storage.get_unchecked_mut(index).punch_hole(None) {
            Some(val) => val,
            None => {
                proof {
                    assert(self.storage.slots() =~= slots0);
                    assert(self.slots().update(index as int, None) =~= self.slots());
                }
                return None;
            },
        };
        let ghost slots1 = self.storage.slots();
        match self.hole_list {
            Some((count, first, last)) => {
                proof {
                    assert(raw0[free.last()].0 is Hole) by {
                        assert(free.last() == free[free.len() - 1]);
                    }
                    lemma_raw_update(slots1, last as int, hole_slot(Some(index)));
                }
                self.storage.get_unchecked_mut(last).set_hole_link(Some(index));
                self.hole_list = Some((count + 1, first, index));
            },
            None => {
                self.hole_list = Some((1, index, index));
            },
        }
        self.free = Ghost(free.push(index as int));
        proof {
            assert(self.raw() =~= punched(raw0, free, index as int));
            assert forall|i: int| 0 <= i < self.raw().len() implies #[trigger] self.slots()[i] == old(self).slots().update(index as int, None)[i] by {
            }
            assert(self.slots() =~= old(self).slots().update(index as int, None));
        }
        Some(val)
    }
}

impl<E, S: ListStorage<Element = Slot<E>>> ListStorage for SparseStorage<E, S> {
    type Element = E;

    closed spec fn slots(&self) -> Seq<Option<E>> {
        view_of(self.raw())
    }

    closed spec fn well_formed(&self) -> bool {
        self.inv()
    }

    /// Plain removal needs a storage without holes.
    open spec fn removable_at(&self, index: int) -> bool {
        all_occupied(self.slots())
    }

    /// Cutting shifts nothing, so holes are no obstacle.
    open spec fn truncatable(&self, len: int) -> bool {
        true
    }

    proof fn lemma_dense_removable(&self, index: int) {
    }

    open spec fn inserted_and_fixed(&self, index: int, element: E, result: Self) -> bool
        where E: MoveFix
    {
        result.slots() == shifted_all(self.slots().insert(index, Some(element)), index as usize, 1isize)
    }

    open spec fn removed_and_fixed(&self, index: int, result: Self) -> bool
        where E: MoveFix
    {
        result.slots() == self.slots().update(index, None)
    }

    /// Inserts an element, then tells every element about the shift.
    fn insert_and_shiftfix(&mut self, index: usize, element: E)
        where E: MoveFix
    {
        ListStorage::insert(self, index, element);
        let ghost inserted = self.slots();
        let n = ListStorage::len(self);
        let mut i: usize = 0;
        while i < n
            invariant
                self.well_formed(),
                self.slots().len() == n,
                inserted.len() == n,
                inserted == old(self).slots().insert(index as int, Some(element)),
                forall|x: int|
                    0 <= x < n ==> #[trigger] self.slots()[x] == (if x < i {
                        shifted_all(inserted, index, 1isize)[x]
                    } else {
                        inserted[x]
                    }),
            decreases n - i,
        {
            let ghost before = self.slots();
            if self.is_occupied(i) {
                let e = self.get_unchecked_mut(i);
                e.fix_right_shift(index, 1);
            }
            proof {
                assert forall|x: int| 0 <= x < n implies #[trigger] self.slots()[x] == (if x < i + 1 {
                    shifted_all(inserted, index, 1isize)[x]
                } else {
                    inserted[x]
                }) by {
                    if x != i {
                        assert(self.slots()[x] == before[x]);
                    }
                }
            }
            i += 1;
        }
        proof {
            assert(self.slots() =~= shifted_all(inserted, index, 1isize));
            lemma_shifted_all_kept(inserted, index, 1isize);
            assert(occupancy(self.slots()) =~= occupancy(inserted));
        }
    }

    fn with_capacity(capacity: usize) -> (r: Self)
        ensures
            r.free_order() == Seq::<int>::empty(),
    {
        let r = SparseStorage { storage: S::with_capacity(capacity), hole_list: None, free: Ghost(Seq::empty()) };
        assert(r.slots() =~= Seq::<Option<E>>::empty());
        r
    }

    /// Inserts an element, moving the free list's links along with the positions after it.
    fn insert(&mut self, index: usize, element: E)
        ensures
            final(self).free_order() == old(self).free_order().map_values(|k: int| if k >= index { k + 1 } else { k }),
    {
        proof {
            self.lemma_view();
        }
        let ghost raw0 = self.raw();
        let ghost free0 = self.free@;
        let ghost slots0 = self.storage.slots();
        let slot = Slot::new_element(element);
        self.storage.insert(index, slot);
        let ghost raw1 = raw0.insert(index as int, slot);
        proof {
            lemma_raw_insert(slots0, index as int, slot);
            lemma_free_list_insert(raw0, self.hole_list, free0, index as int, element);
        }
        let n = self.storage.len();
        let mut j: usize = 0;
        while j < n
            invariant
                self.storage.well_formed(),
                all_occupied(self.storage.slots()),
                self.storage.slots().len() == n,
                n == raw1.len(),
                raw1 == raw0.insert(index as int, slot),
                slot == elem_slot(element),
                free_list_ok(raw0, self.hole_list, free0),
                index <= raw0.len(),
                j <= n,
                forall|i: int| 0 <= i < n ==> #[trigger] self.raw()[i] == (if i < j { shift_slot(raw1[i], index as int) } else { raw1[i] }),
            decreases n - j,
        {
            let ghost s1 = self.storage.slots();
            proof {
                assert(self.storage.slots()[j as int] == Some(self.raw()[j as int]));
                if j < index {
                    lemma_links_in_range(raw0, self.hole_list, free0, j as int);
                } else if j > index {
                    lemma_links_in_range(raw0, self.hole_list, free0, j - 1);
                }
            }
            if self.storage.get_unchecked(j).is_hole() {
                match self.storage.get_unchecked(j).hole_link() {
                    Some(k) => {
                        if k >= index {
                            proof {
                                lemma_raw_update(s1, j as int, hole_slot(Some((k + 1) as usize)));
                            }
                            self.storage.get_unchecked_mut(j).set_hole_link(Some(k + 1));
                        }
                    },
                    None => {},
                }
            }
            j += 1;
        }
        proof {
            assert forall|i: int| 0 <= i < n implies #[trigger] self.raw()[i] == shift_slot(raw1[i], index as int) by {
                assert(self.raw()[i] == (if i < j { shift_slot(raw1[i], index as int) } else { raw1[i] }));
            }
            assert(self.raw().len() == n);
            assert(self.raw() =~= raw1.map_values(|s: Slot<E>| shift_slot(s, index as int)));
        }
        let ghost raw2 = self.raw();
        self.hole_list = match self.hole_list {
            None => None,
            Some((count, first, last)) => {
                proof {
                    assert(0 <= free0[0] < raw0.len());
                    assert(0 <= free0.last() < raw0.len());
                }
                let first = if first >= index {
                    first + 1
                } else {
                    first
                };
                let last = if last >= index {
                    last + 1
                } else {
                    last
                };
                Some((count, first, last))
            },
        };
        self.free = Ghost(free0.map_values(|k: int| shift_index(k, index as int)));
        assert(self.free@ =~= old(self).free_order().map_values(|k: int| if k >= index { k + 1 } else { k }));
        proof {
            assert(self.raw() == raw2);
            assert(self.slots() =~= old(self).slots().insert(index as int, Some(element))) by {
                assert forall|i: int| 0 <= i < self.slots().len() implies #[trigger] self.slots()[i] == old(self).slots().insert(index as int, Some(element))[i] by {
                    assert(shift_slot(raw1[i], index as int).spec_element() == raw1[i].spec_element());
                }
            }
        }
    }

    fn remove(&mut self, index: usize) -> (r: E) {
        proof {
            self.lemma_dense();
            self.lemma_view();
        }
        let ghost old_slots = self.storage.slots();
        let ghost old_raw = self.raw();
        proof {
            self.storage.lemma_dense_removable(index as int);
        }
        let slot = self.storage.remove(index);
        proof {
            assert(old_raw[index as int] == slot);
            lemma_raw_remove(old_slots, index as int);
            assert(self.slots() =~= old(self).slots().remove(index as int));
        }
        slot.unwrap()
    }

    fn len(&self) -> (r: usize) {
        proof {
            self.lemma_view();
        }
        self.storage.len()
    }

    fn is_occupied(&self, index: usize) -> (r: bool) {
        proof {
            self.lemma_view();
        }
        self.storage.get_unchecked(index).is_element()
    }

    fn get_unchecked(&self, index: usize) -> (r: &E) {
        proof {
            self.lemma_view();
        }
        self.storage.get_unchecked(index).element()
    }

    fn get_unchecked_mut(&mut self, index: usize) -> (r: &mut E)
        ensures
            final(self).free_order() == old(self).free_order(),
    {
        proof {
            self.lemma_view();
        }
        let ghost old_slots = self.storage.slots();
        proof {
            assert forall|x: E|
                free_list_ok(#[trigger] raw_of(old_slots.update(index as int, Some(elem_slot(x)))), self.hole_list, self.free@)
                && all_occupied(old_slots.update(index as int, Some(elem_slot(x))))
                && raw_of(old_slots.update(index as int, Some(elem_slot(x)))).map_values(|s: Slot<E>| s.spec_element())
                    == self.slots().update(index as int, Some(x)) by {
                lemma_raw_update(old_slots, index as int, elem_slot(x));
                lemma_free_list_set_element(self.raw(), self.hole_list, self.free@, index as int, x);
                assert(raw_of(old_slots.update(index as int, Some(elem_slot(x)))).map_values(|s: Slot<E>| s.spec_element())
                    =~= self.slots().update(index as int, Some(x)));
            }
        }
        let slot = self.storage.get_unchecked_mut(index);
        slot.element_mut()
    }

    fn push(&mut self, element: E)
        ensures
            final(self).free_order() == old(self).free_order(),
    {
        proof {
            self.lemma_view();
        }
        let ghost old_slots = self.storage.slots();
        let slot = Slot::new_element(element);
        self.storage.push(slot);
        proof {
            lemma_raw_push(old_slots, slot);
            assert(self.slots() =~= old(self).slots().push(Some(element)));
        }
    }

    fn pop(&mut self) -> (r: Option<E>) {
        proof {
            self.lemma_dense();
            self.lemma_view();
        }
        let ghost old_slots = self.storage.slots();
        let ghost old_raw = self.raw();
        proof {
            if self.storage.slots().len() > 0 {
                self.storage.lemma_dense_removable(self.storage.slots().len() - 1);
            }
        }
        let slot = self.storage.pop();
        match slot {
            Some(slot) => {
                proof {
                    assert(old_raw.last() == slot);
                    assert(old_slots.drop_last() =~= old_slots.remove(old_slots.len() - 1));
                    lemma_raw_remove(old_slots, old_slots.len() - 1);
                    assert(self.slots() =~= old(self).slots().drop_last());
                }
                Some(slot.unwrap())
            },
            None => None,
        }
    }

    fn capacity(&self) -> (r: usize) {
        proof {
            self.lemma_view();
        }
        self.storage.capacity()
    }

    fn shrink_to_fit(&mut self) {
        self.storage.shrink_to_fit()
    }

    /// Cuts the storage down to `len` positions: the holes that remain stay in the free
    /// list, in their order, and the ones cut off leave it.
    fn truncate(&mut self, len: usize) {
        if len >= self.len() {
            return;
        }
        proof {
            self.lemma_view();
        }
        let ghost raw0 = self.raw();
        let ghost free0 = self.free@;
        let kept = self.surviving_holes(len);
        let ghost keys = kept@;
        proof {
            self.storage.lemma_dense_removable(len as int);
        }
        self.storage.truncate(len);
        let ghost raw1 = raw0.subrange(0, len as int);
        proof {
            assert(self.raw() =~= raw1);
            assert forall|m: int| 0 <= m < keys.len() implies (#[trigger] raw1[keys[m] as int]).0 is Hole by {
                assert(raw1[keys[m] as int] == raw0[keys[m] as int]);
            }
        }
        relink_holes(&mut self.storage, &kept);
        let n = kept.len();
        self.hole_list = if n == 0 {
            None
        } else {
            Some((n, kept[0], kept[n - 1]))
        };
        self.free = Ghost(keys.map_values(|k: usize| k as int));
        proof {
            let f = self.free@;
            let raw = self.raw();
            assert(f.no_duplicates()) by {
                assert forall|x: int, y: int| 0 <= x < f.len() && 0 <= y < f.len() && x != y implies f[x] != f[y] by {
                    assert(keys[x] != keys[y]);
                }
            }
            assert forall|i: int| 0 <= i < raw.len() implies ((#[trigger] raw[i]).0 is Hole <==> f.contains(i)) by {
                if raw[i].0 is Hole {
                    assert(raw1[i] == raw0[i]);
                    assert(raw0[i].0 is Hole);
                    assert(free0.contains(i));
                    let t = choose|t: int| 0 <= t < free0.len() && free0[t] == i;
                    assert(keys.contains(free0[t] as usize));
                    let m = choose|m: int| 0 <= m < keys.len() && keys[m] == free0[t] as usize;
                    assert(f[m] == i);
                }
                if f.contains(i) {
                    let m = choose|m: int| 0 <= m < f.len() && f[m] == i;
                    assert(raw1[keys[m] as int].0 is Hole);
                }
            }
            assert forall|m: int| 0 <= m < f.len() implies (#[trigger] raw[f[m]]).0 == SlotInner::<E>::Hole(
                if m + 1 < f.len() {
                    Some(f[m + 1] as usize)
                } else {
                    None
                },
            ) by {
                assert(raw[keys[m] as int] == hole_slot::<E>(if m + 1 < keys.len() { Some(keys[m + 1]) } else { None }));
            }
            assert forall|m: int| 0 <= m < f.len() implies 0 <= #[trigger] f[m] < raw.len() by {
                assert(keys[m] < len);
            }
            assert(free_list_ok(raw, self.hole_list, f));
            assert forall|i: int| 0 <= i < len implies #[trigger] self.slots()[i] == old(self).slots().subrange(0, len as int)[i] by {
                assert(raw1[i] == raw0[i]);
                if raw1[i].0 is Element {
                    assert(raw[i] == raw1[i]);
                }
            }
            assert(self.slots() =~= old(self).slots().subrange(0, len as int));
        }
    }

    /// Fills the first hole of the free list, or appends when there is none.
    fn add(&mut self, element: E) -> (r: usize)
        ensures
            holes_of(old(self).slots()).len() > 0 ==> r < old(self).slots().len() && r == old(self).free_order()[0]
                && final(self).free_order() == old(self).free_order().drop_first(),
            holes_of(old(self).slots()).len() == 0 ==> r == old(self).slots().len()
                && final(self).free_order() == old(self).free_order(),
            live_count(final(self).slots()) == live_count(old(self).slots()) + 1,
    {
        proof {
            self.lemma_view();
            self.lemma_holes();
        }
        match self.hole_list {
            Some((count, first, last)) => {
                let ghost slots0 = self.storage.slots();
                let ghost raw0 = self.raw();
                let ghost free = self.free@;
                let n = self.storage.len();
                proof {
                    lemma_free_list_take(raw0, self.hole_list, free, element);
                    lemma_raw_update(slots0, first as int, elem_slot(element));
                }
                let next = self.storage.get_unchecked(first).hole_link();
                *self.storage.get_unchecked_mut(first) = Slot::new_element(element);
                if count > 1 {
                    let following = match next {
                        Some(n) => n,
                        None => {
                            proof {
                                assert(false);
                            }
                            first
                        },
                    };
                    self.hole_list = Some((count - 1, following, last));
                } else {
                    self.hole_list = None;
                }
                self.free = Ghost(free.drop_first());
                proof {
                    assert(self.raw() =~= raw0.update(first as int, elem_slot(element)));
                    assert(self.slots() =~= old(self).slots().update(first as int, Some(element)));
                    lemma_live_count_fill(old(self).slots(), first as int, element);
                }
                first
            },
            None => {
                self.push(element);
                proof {
                    lemma_live_count_push(old(self).slots(), element);
                }
                self.len() - 1
            },
        }
    }

    fn reserve(&mut self, additional: usize) {
        self.storage.reserve(additional)
    }

    /// Punches a hole at `index`: no other element moves, so no element needs to be told.
    fn remove_and_shiftfix(&mut self, index: usize) -> (r: E)
        where E: MoveFix
        ensures
            final(self).slots() == old(self).slots().update(index as int, None),
            final(self).free_order() == old(self).free_order().push(index as int),
            live_count(final(self).slots()) == live_count(old(self).slots()) - 1,
    {
        proof {
            lemma_live_count_vacate(old(self).slots(), index as int);
            let u = old(self).slots().update(index as int, None);
            assert(kept_or_shifted(u, u, -1isize));
        }
        match self.punch_hole(index) {
            Some(val) => val,
            None => {
                proof {
                    assert(false);
                }
                vstd::pervasive::unreached()
            },
        }
    }
}

/// A `Vec` of slots wrapped in a sparse storage.
pub type SparseVec<T> = SparseStorage<T, Vec<Slot<T>>>;

/// The storage used by data structures when none is chosen.
pub type DefaultStorage<T> = SparseVec<T>;

} // verus!
