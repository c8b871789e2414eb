//! A list of lists that bounds the cost of any single reallocation.

use vstd::prelude::*;
use crate::iter::IntoRefIterator;
use crate::list::{all_occupied, kept_or_shifted, occupancy, List, ListStorage, MoveFix};

mod usize_and_flag;

pub use usize_and_flag::{flag_of_word, size_of_word, UsizeAndFlag};

verus! {

/// The elements of a chain: the slots of its buffers, one buffer after the other.
pub open spec fn flatten<T, S: ListStorage<Element = T>>(bufs: Seq<S>) -> Seq<Option<T>>
    decreases bufs.len(),
{
    if bufs.len() == 0 {
        Seq::empty()
    } else {
        flatten(bufs.drop_last()) + bufs.last().slots()
    }
}

/// The buffers held by a list of buffers without vacant positions.
pub open spec fn buffers_of<S>(slots: Seq<Option<S>>) -> Seq<S> {
    slots.map_values(|o: Option<S>| o.unwrap())
}

/// Where buffer `b` starts in the flattened chain.
pub open spec fn offset_of<T, S: ListStorage<Element = T>>(bufs: Seq<S>, b: int) -> int {
    flatten(bufs.take(b)).len() as int
}

proof fn lemma_flatten_push<T, S: ListStorage<Element = T>>(bufs: Seq<S>, s: S)
    ensures
        flatten(bufs.push(s)) == flatten(bufs) + s.slots(),
{
    assert(bufs.push(s).drop_last() =~= bufs);
}

proof fn lemma_flatten_concat<T, S: ListStorage<Element = T>>(a: Seq<S>, c: Seq<S>)
    ensures
        flatten(a + c) == flatten(a) + flatten(c),
    decreases c.len(),
{
    if c.len() == 0 {
        assert(a + c =~= a);
        assert(flatten(a) + flatten(c) =~= flatten(a));
    } else {
        lemma_flatten_concat(a, c.drop_last());
        assert((a + c).drop_last() =~= a + c.drop_last());
        assert((a + c).last() == c.last());
        assert(flatten(a + c) =~= flatten(a) + flatten(c));
    }
}

/// The chain is the buffers before `k`, then buffer `k`, then the buffers after it.
proof fn lemma_flatten_split<T, S: ListStorage<Element = T>>(bufs: Seq<S>, k: int)
    requires
        0 <= k < bufs.len(),
    ensures
        flatten(bufs) == flatten(bufs.take(k)) + bufs[k].slots() + flatten(bufs.skip(k + 1)),
        flatten(bufs.take(k + 1)) == flatten(bufs.take(k)) + bufs[k].slots(),
        offset_of(bufs, k + 1) == offset_of(bufs, k) + bufs[k].slots().len(),
        offset_of(bufs, k) + bufs[k].slots().len() <= flatten(bufs).len(),
{
    assert(bufs =~= bufs.take(k).push(bufs[k]) + bufs.skip(k + 1));
    assert(bufs.take(k + 1) =~= bufs.take(k).push(bufs[k]));
    lemma_flatten_concat(bufs.take(k).push(bufs[k]), bufs.skip(k + 1));
    lemma_flatten_push(bufs.take(k), bufs[k]);
}

/// Replacing buffer `k` replaces its part of the chain.
proof fn lemma_flatten_update<T, S: ListStorage<Element = T>>(bufs: Seq<S>, k: int, s: S)
    requires
        0 <= k < bufs.len(),
    ensures
        flatten(bufs.update(k, s)) == flatten(bufs.take(k)) + s.slots() + flatten(bufs.skip(k + 1)),
        offset_of(bufs.update(k, s), k) == offset_of(bufs, k),
{
    let nb = bufs.update(k, s);
    lemma_flatten_split(nb, k);
    assert(nb.take(k) =~= bufs.take(k));
    assert(nb.skip(k + 1) =~= bufs.skip(k + 1));
}

proof fn lemma_offsets<T, S: ListStorage<Element = T>>(bufs: Seq<S>)
    ensures
        offset_of(bufs, 0) == 0,
        offset_of(bufs, bufs.len() as int) == flatten(bufs).len(),
{
    assert(bufs.take(0) =~= Seq::<S>::empty());
    assert(bufs.take(bufs.len() as int) =~= bufs);
}

/// Buffers start no earlier than the buffers before them.
proof fn lemma_offset_monotone<T, S: ListStorage<Element = T>>(bufs: Seq<S>, a: int, c: int)
    requires
        0 <= a <= c <= bufs.len(),
    ensures
        offset_of(bufs, a) <= offset_of(bufs, c),
    decreases c - a,
{
    if a < c {
        lemma_flatten_split(bufs, c - 1);
        lemma_offset_monotone(bufs, a, c - 1);
    }
}

/// A chain without vacant positions has none in any of its buffers.
proof fn lemma_buffer_occupied<T, S: ListStorage<Element = T>>(bufs: Seq<S>, k: int)
    requires
        0 <= k < bufs.len(),
        all_occupied(flatten(bufs)),
    ensures
        all_occupied(bufs[k].slots()),
        bufs[k].slots().len() <= flatten(bufs).len(),
{
    lemma_flatten_split(bufs, k);
    let off = flatten(bufs.take(k)).len();
    assert forall|i: int| 0 <= i < bufs[k].slots().len() implies (#[trigger] bufs[k].slots()[i]) is Some by {
        assert(flatten(bufs)[off + i] == bufs[k].slots()[i]);
    }
}

/// Replacing one of the buffers held by a list of buffers.
proof fn lemma_buffers_update<S>(cs: Seq<Option<S>>, k: int, s: S)
    requires
        all_occupied(cs),
        0 <= k < cs.len(),
    ensures
        all_occupied(cs.update(k, Some(s))),
        buffers_of(cs.update(k, Some(s))) == buffers_of(cs).update(k, s),
{
    assert(buffers_of(cs.update(k, Some(s))) =~= buffers_of(cs).update(k, s));
}

proof fn lemma_buffers_push<S>(cs: Seq<Option<S>>, s: S)
    requires
        all_occupied(cs),
    ensures
        all_occupied(cs.push(Some(s))),
        buffers_of(cs.push(Some(s))) == buffers_of(cs).push(s),
{
    assert(buffers_of(cs.push(Some(s))) =~= buffers_of(cs).push(s));
}

proof fn lemma_occupancy_concat<T>(a: Seq<Option<T>>, b: Seq<Option<T>>, c: Seq<Option<T>>)
    ensures
        occupancy(a + b + c) == occupancy(a) + occupancy(b) + occupancy(c),
{
    assert(occupancy(a + b + c) =~= occupancy(a) + occupancy(b) + occupancy(c));
}

/// Buffers without positions add nothing to a chain.
proof fn lemma_flatten_empty<T, S: ListStorage<Element = T>>(bufs: Seq<S>)
    requires
        forall|k: int| 0 <= k < bufs.len() ==> (#[trigger] bufs[k]).slots().len() == 0,
    ensures
        flatten(bufs).len() == 0,
    decreases bufs.len(),
{
    if bufs.len() > 0 {
        assert(bufs.last() == bufs[bufs.len() - 1]);
        lemma_flatten_empty(bufs.drop_last());
    }
}

/// Removing a buffer without positions leaves the chain as it was.
proof fn lemma_flatten_remove_empty<T, S: ListStorage<Element = T>>(bufs: Seq<S>, k: int)
    requires
        0 <= k < bufs.len(),
        bufs[k].slots().len() == 0,
    ensures
        flatten(bufs.remove(k)) == flatten(bufs),
{
    lemma_flatten_split(bufs, k);
    assert(bufs.remove(k) =~= bufs.take(k) + bufs.skip(k + 1));
    lemma_flatten_concat(bufs.take(k), bufs.skip(k + 1));
    assert(flatten(bufs) =~= flatten(bufs.take(k)) + flatten(bufs.skip(k + 1)));
}

/// The slots of each buffer, in order.
pub open spec fn buffer_slots<T, S: ListStorage<Element = T>>(bufs: Seq<S>) -> Seq<Seq<Option<T>>> {
    bufs.map_values(|s: S| s.slots())
}

/// The first `k` buffers are empty, and buffer `k`, if there is one, is not.
pub open spec fn leading_empty<S: ListStorage>(bufs: Seq<S>, k: int) -> bool {
    &&& 0 <= k <= bufs.len()
    &&& forall|x: int| 0 <= x < k ==> (#[trigger] bufs[x]).slots().len() == 0
    &&& k < bufs.len() ==> bufs[k].slots().len() > 0
}

/// Keeping or shifting each element of one part keeps or shifts each element of the whole.
proof fn lemma_kept_concat<E: MoveFix>(
    a: Seq<Option<E>>,
    x: Seq<Option<E>>,
    y: Seq<Option<E>>,
    c: Seq<Option<E>>,
    shifted_by: isize,
)
    requires
        kept_or_shifted(x, y, shifted_by),
    ensures
        kept_or_shifted(a + x + c, a + y + c, shifted_by),
{
    let before = a + x + c;
    let after = a + y + c;
    assert forall|i: int| 0 <= i < before.len() implies #[trigger] after[i] == before[i] || (before[i] is Some && exists|from: usize|
        after[i] == Some(before[i].unwrap().shifted(from, shifted_by))) by {
        if a.len() <= i < a.len() + x.len() {
            let j = i - a.len();
            assert(after[i] == y[j] && before[i] == x[j]);
            assert(y[j] == x[j] || (x[j] is Some && exists|from: usize| y[j] == Some(x[j].unwrap().shifted(from, shifted_by))));
        } else if i < a.len() {
            assert(after[i] == a[i] && before[i] == a[i]);
        } else {
            assert(after[i] == c[i - a.len() - x.len()] && before[i] == c[i - a.len() - x.len()]);
        }
    }
}

/// A list data structure wrapping a list of buffers, which caps the number of elements
/// that any single buffer is grown to by `push`.
#[derive(Clone, Copy, Debug)]
#[verifier::reject_recursive_types(T)]
#[verifier::reject_recursive_types(S)]
pub struct Chain<T, S: ListStorage<Element = T>, I: ListStorage<Element = S>> {
    contents: I,
    len: usize,
    limit: UsizeAndFlag,
}

/// The number of bytes that a buffer of a chain holds by default.
pub const BUFFER_BYTES: usize = 2048;

/// The default limit for elements of `size` bytes: as many as fit in `BUFFER_BYTES`, and
/// at least 2.
pub open spec fn default_limit_of(size: nat) -> int {
    let base = if size == 0 { BUFFER_BYTES as int } else { BUFFER_BYTES as int / size as int };
    if base < 2 { 2 } else { base }
}

impl<T, S: ListStorage<Element = T>, I: ListStorage<Element = S>> Chain<T, S, I> {
    spec fn bufs(&self) -> Seq<S> {
        buffers_of(self.contents.slots())
    }

    fn default_limit() -> (r: usize)
        ensures
            r == default_limit_of(vstd::layout::size_of::<T>()),
    {
        let size = core::mem::size_of::<T>();
        let base = if size == 0 {
            BUFFER_BYTES
        } else {
            BUFFER_BYTES / size
        };
        if base < 2 {
            2
        } else {
            base
        }
    }

    /// The buffers of the chain, in order.
    pub closed spec fn buffers(&self) -> Seq<S> {
        self.bufs()
    }

    /// The number of elements to which `push` fills a buffer.
    pub closed spec fn spec_limit(&self) -> usize {
        size_of_word(self.limit.0)
    }

    /// Whether `push` allocates new buffers to the limit right away.
    pub closed spec fn spec_allocates_to_limit(&self) -> bool {
        flag_of_word(self.limit.0)
    }

    spec fn inv(&self) -> bool {
        &&& self.contents.well_formed()
        &&& all_occupied(self.contents.slots())
        &&& forall|b: int| 0 <= b < self.bufs().len() ==> (#[trigger] self.bufs()[b]).well_formed()
        &&& self.len == flatten(self.bufs()).len()
        &&& size_of_word(self.limit.0) >= 2
    }

    proof fn lemma_bufs(&self)
        requires
            self.inv(),
        ensures
            forall|b: int| 0 <= b < self.bufs().len() ==> self.contents.slots()[b] == Some(#[trigger] self.bufs()[b]),
            self.bufs().len() == self.contents.slots().len(),
            self.slots() == flatten(self.bufs()),
    {
        assert forall|b: int| 0 <= b < self.bufs().len() implies self.contents.slots()[b] == Some(#[trigger] self.bufs()[b]) by {
            assert(self.contents.slots()[b] is Some);
        }
    }

    /// The chain's elements are its buffers' slots, one buffer after the other; every buffer
    /// is well formed, and the limit is even and at least 2.
    pub proof fn lemma_contents(&self)
        requires
            self.well_formed(),
        ensures
            self.slots() == flatten(self.buffers()),
            forall|b: int| 0 <= b < self.buffers().len() ==> (#[trigger] self.buffers()[b]).well_formed(),
            self.spec_limit() >= 2,
            self.spec_limit() % 2 == 0,
    {
    }

    /// Finds the buffer holding position `index`, and the position within it.
    fn locate(&self, index: usize) -> (r: (usize, usize))
        requires
            self.inv(),
            index < self.len,
        ensures
            r.0 < self.bufs().len(),
            r.1 < self.bufs()[r.0 as int].slots().len(),
            offset_of(self.bufs(), r.0 as int) + r.1 == index,
            flatten(self.bufs())[index as int] == self.bufs()[r.0 as int].slots()[r.1 as int],
    {
        proof {
            self.lemma_bufs();
            lemma_offsets(self.bufs());
        }
        let nb = self.contents.len();
        let mut b: usize = 0;
        let mut rem: usize = index;
        while b < nb
            invariant
                self.inv(),
                nb == self.bufs().len(),
                b <= nb,
                offset_of(self.bufs(), b as int) + rem == index,
                offset_of(self.bufs(), nb as int) == self.len,
                index < self.len,
            decreases nb - b,
        {
            proof {
                self.lemma_bufs();
                lemma_flatten_split(self.bufs(), b as int);
            }
            let l = self.contents.get_unchecked(b).len();
            if rem < l {
                proof {
                    assert(flatten(self.bufs())[index as int] == self.bufs()[b as int].slots()[rem as int]);
                }
                return (b, rem);
            }
            rem -= l;
            b += 1;
        }
        proof {
            assert(false);
        }
        (0, 0)
    }

    /// Finds where an element inserted at `index` goes: the buffer that holds position
    /// `index`, or the end of the last buffer when `index` is the length.
    fn locate_insert(&self, index: usize) -> (r: (usize, usize))
        requires
            self.inv(),
            index <= self.len,
            self.bufs().len() > 0,
        ensures
            r.0 < self.bufs().len(),
            r.1 < self.bufs()[r.0 as int].slots().len() || (r.0 == self.bufs().len() - 1 && r.1
                == self.bufs()[r.0 as int].slots().len()),
            offset_of(self.bufs(), r.0 as int) + r.1 == index,
    {
        proof {
            self.lemma_bufs();
            lemma_offsets(self.bufs());
        }
        let nb = self.contents.len();
        let mut b: usize = 0;
        let mut rem: usize = index;
        while b < nb
            invariant
                self.inv(),
                nb == self.bufs().len(),
                b < nb,
                offset_of(self.bufs(), b as int) + rem == index,
                offset_of(self.bufs(), nb as int) == self.len,
                index <= self.len,
            decreases nb - b,
        {
            proof {
                self.lemma_bufs();
                lemma_flatten_split(self.bufs(), b as int);
            }
            let l = self.contents.get_unchecked(b).len();
            if rem < l || b + 1 == nb {
                return (b, rem);
            }
            rem -= l;
            b += 1;
        }
        proof {
            assert(false);
        }
        (0, 0)
    }

    /// Sets the limit, rounded down to an even number and at least 2, to which `push`
    /// fills a buffer before starting a new one.
    pub fn set_limit(&mut self, limit: usize)
        requires
            old(self).well_formed(),
        ensures
            final(self).well_formed(),
            final(self).slots() == old(self).slots(),
            final(self).buffers() == old(self).buffers(),
            final(self).spec_limit() == (if limit < 2 { 2 } else { size_of_word(limit) }),
            final(self).spec_allocates_to_limit() == old(self).spec_allocates_to_limit(),
    {
        let masked = limit & UsizeAndFlag::SIZE_MASK;
        proof {
            assert(limit & !1usize == limit - limit % 2) by (bit_vector);
            assert((limit & !1usize) % 2 == 0) by (bit_vector);
        }
        let clamped = if masked < 2 {
            2
        } else {
            masked
        };
        self.limit.set_size(clamped);
    }

    /// The limit to which `push` fills a buffer.
    pub fn limit(&self) -> (r: usize)
        ensures
            r == self.spec_limit(),
            self.well_formed() ==> r >= 2 && r % 2 == 0,
    {
        self.limit.size()
    }

    /// Sets whether new buffers are allocated to the limit right away, rather than grown
    /// on demand.
    pub fn allocate_to_limit(&mut self, allocate_to_limit: bool)
        requires
            old(self).well_formed(),
        ensures
            final(self).well_formed(),
            final(self).slots() == old(self).slots(),
            final(self).buffers() == old(self).buffers(),
            final(self).spec_limit() == old(self).spec_limit(),
            final(self).spec_allocates_to_limit() == allocate_to_limit,
    {
        self.limit.set_flag(allocate_to_limit)
    }

    /// Whether new buffers are allocated to the limit right away.
    pub fn allocates_to_limit(&self) -> (r: bool)
        ensures
            r == self.spec_allocates_to_limit(),
    {
        self.limit.flag()
    }

    /// Iterates over the buffers of the chain, each seen through a read-only proxy.
    pub fn iter(&self) -> (r: Iter<'_, S, I>)
        requires
            self.well_formed(),
        ensures
            r.valid(),
            r.remaining() == self.buffers(),
    {
        proof {
            self.lemma_bufs();
        }
        let r = Iter { contents: &self.contents, next: 0, marker: core::marker::PhantomData };
        proof {
            assert(r.remaining() =~= self.buffers());
        }
        r
    }

    /// The number of buffers.
    pub fn num_storages(&self) -> (r: usize)
        requires
            self.well_formed(),
        ensures
            r == self.buffers().len(),
    {
        proof {
            self.lemma_bufs();
        }
        self.contents.len()
    }

    /// The element at `index`, for mutation: whatever is written through it, the buffers keep
    /// their lengths.
    fn element_mut(&mut self, index: usize) -> (r: &mut T)
        requires
            old(self).inv(),
            index < old(self).len,
            old(self).slots()[index as int] is Some,
        ensures
            *r == old(self).slots()[index as int].unwrap(),
            final(self).slots() == old(self).slots().update(index as int, Some(*final(r))),
            final(self).contents.well_formed(),
            all_occupied(final(self).contents.slots()),
            final(self).len == flatten(final(self).bufs()).len(),
            forall|b: int| 0 <= b < final(self).bufs().len() ==> (#[trigger] final(self).bufs()[b]).well_formed(),
            size_of_word(final(self).limit.0) >= 2,
    {
        proof {
            self.lemma_bufs();
        }
        let ghost bufs0 = self.bufs();
        let ghost cs0 = self.contents.slots();
        let (b, local) = self.locate(index);
        proof {
            lemma_flatten_split(bufs0, b as int);
            let pre = flatten(bufs0.take(b as int));
            let post = flatten(bufs0.skip(b + 1));
            assert forall|s1: S|
                flatten(#[trigger] buffers_of(cs0.update(b as int, Some(s1)))) == pre + s1.slots() + post
                    && buffers_of(cs0.update(b as int, Some(s1))) == bufs0.update(b as int, s1)
                    && all_occupied(cs0.update(b as int, Some(s1)))
                    && (s1.well_formed() ==> forall|k: int|
                        0 <= k < bufs0.len() ==> (#[trigger] buffers_of(cs0.update(b as int, Some(s1)))[k]).well_formed()) by {
                lemma_buffers_update(cs0, b as int, s1);
                lemma_flatten_update(bufs0, b as int, s1);
                if s1.well_formed() {
                    assert forall|k: int| 0 <= k < bufs0.len() implies (#[trigger] buffers_of(cs0.update(b as int, Some(s1)))[k]).well_formed() by {
                        if k != b {
                            assert(bufs0[k].well_formed());
                        }
                    }
                }
            }
            assert forall|x: T|
                pre + #[trigger] bufs0[b as int].slots().update(local as int, Some(x)) + post
                    == flatten(bufs0).update(index as int, Some(x)) by {
                assert(pre + bufs0[b as int].slots().update(local as int, Some(x)) + post
                    =~= flatten(bufs0).update(index as int, Some(x)));
            }
        }
        let st = self.contents.get_unchecked_mut(b);
        proof {
            assert(*st == bufs0[b as int]);
        }
        st.get_unchecked_mut(local)
    }

    /// Appends a new empty buffer, allocated to the limit if so configured, and returns it.
    fn push_storage(&mut self) -> (r: &mut S)
        requires
            old(self).inv(),
            old(self).contents.slots().len() < usize::MAX,
        ensures
            r.well_formed(),
            r.slots().len() == 0,
            final(self).contents.well_formed(),
            final(self).contents.slots() == old(self).contents.slots().push(Some(*final(r))),
            final(self).len == old(self).len,
            final(self).limit == old(self).limit,
    {
        let limit = self.limit();
        let st = if self.allocates_to_limit() {
            S::with_capacity(limit)
        } else {
            S::new()
        };
        self.contents.push(st);
        let n = self.contents.len();
        self.contents.get_unchecked_mut(n - 1)
    }
}

/// One buffer of a chain, through which its elements can be read and nothing else: the
/// chain's cached length cannot be put out of step with its buffers.
pub struct StorageProxy<'a, S>(&'a S);

impl<'a, S: ListStorage> StorageProxy<'a, S> {
    /// The buffer shown.
    pub closed spec fn buffer(&self) -> S {
        *self.0
    }

    /// The number of positions in the buffer.
    pub fn len(&self) -> (r: usize)
        requires
            self.buffer().well_formed(),
        ensures
            r == self.buffer().slots().len(),
    {
        self.0.len()
    }

    /// The element at `index` in the buffer, or `None` past its end.
    pub fn get(&self, index: usize) -> (r: Option<&S::Element>)
        requires
            self.buffer().well_formed(),
            index < self.buffer().slots().len() ==> self.buffer().slots()[index as int] is Some,
        ensures
            match r {
                Some(x) => index < self.buffer().slots().len() && self.buffer().slots()[index as int] == Some(*x),
                None => index >= self.buffer().slots().len(),
            },
    {
        self.0.get(index)
    }

    /// The number of elements the buffer can hold without allocating.
    pub fn capacity(&self) -> (r: usize)
        requires
            self.buffer().well_formed(),
        ensures
            r >= self.buffer().slots().len(),
    {
        self.0.capacity()
    }
}

impl<'a: 'b, 'b, S: List> IntoRefIterator<'b> for StorageProxy<'a, S> {
    type Item = <S as ListStorage>::Element;
    type Iter = <S as IntoRefIterator<'b>>::Iter;

    fn iter(&'b self) -> Self::Iter {
        self.0.iter()
    }
}

/// Walks the buffers of a chain, front to back.
pub struct Iter<'a, S, I> {
    contents: &'a I,
    next: usize,
    marker: core::marker::PhantomData<S>,
}

impl<'a, S: ListStorage, I: ListStorage<Element = S>> Iter<'a, S, I> {
    /// The buffers not yet handed out.
    pub closed spec fn remaining(&self) -> Seq<S> {
        buffers_of(self.contents.slots()).skip(self.next as int)
    }

    /// The iterator walks a well-formed list of buffers.
    pub closed spec fn valid(&self) -> bool {
        &&& self.contents.well_formed()
        &&& all_occupied(self.contents.slots())
        &&& self.next <= self.contents.slots().len()
        &&& forall|b: int| 0 <= b < self.contents.slots().len() ==> (#[trigger] buffers_of(self.contents.slots())[b]).well_formed()
    }

    /// Hands out the next buffer, or `None` once all were.
    pub fn next(&mut self) -> (r: Option<StorageProxy<'a, S>>)
        requires
            old(self).valid(),
        ensures
            final(self).valid(),
            old(self).remaining().len() == 0 ==> r is None && final(self).remaining() == old(self).remaining(),
            old(self).remaining().len() > 0 ==> r is Some && r.unwrap().buffer() == old(self).remaining()[0]
                && r.unwrap().buffer().well_formed()
                && final(self).remaining() == old(self).remaining().drop_first(),
    {
        if self.next < self.contents.len() {
            let contents: &'a I = self.contents;
            let st = contents.get_unchecked(self.next);
            proof {
                assert(self.contents.slots()[self.next as int] is Some);
                assert(buffers_of(self.contents.slots())[self.next as int] == *st);
            }
            self.next = self.next + 1;
            proof {
                assert(self.remaining() =~= old(self).remaining().drop_first());
            }
            Some(StorageProxy(st))
        } else {
            None
        }
    }
}

impl<T, S: ListStorage<Element = T>, I: ListStorage<Element = S>> ListStorage for Chain<T, S, I> {
    type Element = T;

    closed spec fn slots(&self) -> Seq<Option<T>> {
        flatten(self.bufs())
    }

    closed spec fn well_formed(&self) -> bool {
        self.inv()
    }

    /// Plain removal at `index` is up to the buffer that holds it.
    /// Cutting is up to each buffer that loses positions: the one holding `len` is cut at
    /// its local position, the ones after it are emptied.
    open spec fn truncatable(&self, len: int) -> bool {
        forall|b: int|
            0 <= b < self.buffers().len() && len < #[trigger] offset_of(self.buffers(), b) + self.buffers()[b].slots().len()
                && self.buffers()[b].slots().len() > 0 ==> self.buffers()[b].truncatable(
                if len >= offset_of(self.buffers(), b) {
                    len - offset_of(self.buffers(), b)
                } else {
                    0
                },
            )
    }

    proof fn lemma_dense_removable(&self, index: int) {
        self.lemma_bufs();
        assert forall|b: int|
            0 <= b < self.buffers().len() && index < #[trigger] offset_of(self.buffers(), b) + self.buffers()[b].slots().len()
                && self.buffers()[b].slots().len() > 0 implies self.buffers()[b].truncatable(
            if index >= offset_of(self.buffers(), b) {
                index - offset_of(self.buffers(), b)
            } else {
                0
            },
        ) by {
            lemma_buffer_occupied(self.bufs(), b);
            let off = offset_of(self.buffers(), b);
            self.bufs()[b].lemma_dense_removable(if index >= off { index - off } else { 0 });
        }
        assert forall|b: int|
            0 <= b < self.buffers().len() && offset_of(self.buffers(), b) <= index < #[trigger] offset_of(self.buffers(), b)
                + self.buffers()[b].slots().len() implies self.buffers()[b].removable_at(index - offset_of(self.buffers(), b)) by {
            lemma_buffer_occupied(self.bufs(), b);
            self.bufs()[b].lemma_dense_removable(index - offset_of(self.buffers(), b));
        }
    }

    open spec fn removable_at(&self, index: int) -> bool {
        forall|b: int|
            0 <= b < self.buffers().len() && offset_of(self.buffers(), b) <= index < #[trigger] offset_of(self.buffers(), b)
                + self.buffers()[b].slots().len() ==> self.buffers()[b].removable_at(index - offset_of(self.buffers(), b))
    }

    fn with_capacity(capacity: usize) -> (r: Self)
        ensures
            r.buffers().len() == 1,
            r.spec_limit() == size_of_word(default_limit_of(vstd::layout::size_of::<T>()) as usize),
            r.spec_allocates_to_limit(),
    {
        let mut contents = I::new();
        let st = S::with_capacity(capacity);
        contents.push(st);
        let r = Chain { contents, len: 0, limit: UsizeAndFlag::new(Self::default_limit(), true) };
        proof {
            assert(r.bufs() =~= Seq::<S>::empty().push(st));
            lemma_flatten_push(Seq::<S>::empty(), st);
            assert(r.slots() =~= Seq::<Option<T>>::empty());
        }
        r
    }

    fn new() -> (r: Self)
        ensures
            r.buffers().len() == 0,
            r.spec_limit() == size_of_word(default_limit_of(vstd::layout::size_of::<T>()) as usize),
            r.spec_allocates_to_limit(),
    {
        let contents = I::new();
        let r = Chain { contents, len: 0, limit: UsizeAndFlag::new(Self::default_limit(), true) };
        proof {
            assert(r.bufs() =~= Seq::<S>::empty());
        }
        r
    }

    fn len(&self) -> (r: usize) {
        self.len
    }

    fn is_occupied(&self, index: usize) -> (r: bool) {
        let (b, local) = self.locate(index);
        proof {
            self.lemma_bufs();
        }
        self.contents.get_unchecked(b).is_occupied(local)
    }

    fn get_unchecked(&self, index: usize) -> (r: &T) {
        let (b, local) = self.locate(index);
        proof {
            self.lemma_bufs();
        }
        self.contents.get_unchecked(b).get_unchecked(local)
    }

    fn push(&mut self, element: T)
        ensures
            final(self).spec_limit() == old(self).spec_limit(),
            final(self).spec_allocates_to_limit() == old(self).spec_allocates_to_limit(),
            old(self).buffers().len() > 0 && old(self).buffers().last().slots().len() < old(self).spec_limit()
                ==> final(self).buffers() == old(self).buffers().update(
                old(self).buffers().len() - 1,
                final(self).buffers().last(),
            ) && final(self).buffers().last().slots() == old(self).buffers().last().slots().push(Some(element)),
            (old(self).buffers().len() == 0 || old(self).buffers().last().slots().len() >= old(self).spec_limit())
                && old(self).buffers().len() < usize::MAX ==> final(self).buffers() == old(self).buffers().push(
                final(self).buffers().last(),
            ) && final(self).buffers().last().slots() == seq![Some(element)],
    {
        proof {
            self.lemma_bufs();
        }
        let limit = self.limit();
        let n = self.contents.len();
        let ghost bufs0 = self.bufs();
        let ghost cs0 = self.contents.slots();
        if n > 0 && (n == usize::MAX || self.contents.get_unchecked(n - 1).len() < limit) {
            proof {
                lemma_flatten_split(bufs0, n - 1);
                assert(bufs0.skip(n as int) =~= Seq::<S>::empty());
            }
            let st = self.contents.get_unchecked_mut(n - 1);
            st.push(element);
            self.len = self.len + 1;
            proof {
                let s1 = self.contents.slots()[n - 1].unwrap();
                assert(self.contents.slots() == cs0.update(n - 1, Some(s1)));
                assert(self.bufs() =~= bufs0.update(n - 1, s1));
                lemma_flatten_update(bufs0, n - 1, s1);
                assert(self.slots() =~= old(self).slots().push(Some(element)));
                assert(self.bufs().last() == s1);
            }
        } else {
            let st = self.push_storage();
            st.push(element);
            self.len = self.len + 1;
            proof {
                let s1 = self.contents.slots()[n as int].unwrap();
                assert(self.bufs() =~= bufs0.push(s1));
                lemma_flatten_push(bufs0, s1);
                assert(self.slots() =~= old(self).slots().push(Some(element)));
                assert(self.bufs().last() == s1);
                assert(s1.slots() =~= seq![Some(element)]);
            }
        }
    }

    fn insert(&mut self, index: usize, element: T) {
        proof {
            self.lemma_bufs();
        }
        let ghost bufs0 = self.bufs();
        let ghost cs0 = self.contents.slots();
        if self.contents.len() == 0 {
            let st = self.push_storage();
            st.push(element);
            self.len = self.len + 1;
            proof {
                let s1 = self.contents.slots()[0].unwrap();
                lemma_buffers_push(cs0, s1);
                lemma_flatten_push(bufs0, s1);
                assert(self.slots() =~= old(self).slots().insert(index as int, Some(element)));
            }
            return;
        }
        let (b, local) = self.locate_insert(index);
        proof {
            lemma_flatten_split(bufs0, b as int);
        }
        let st = self.contents.get_unchecked_mut(b);
        st.insert(local, element);
        self.len = self.len + 1;
        proof {
            let s1 = self.contents.slots()[b as int].unwrap();
            lemma_buffers_update(cs0, b as int, s1);
            lemma_flatten_update(bufs0, b as int, s1);
            assert(self.slots() =~= old(self).slots().insert(index as int, Some(element)));
        }
    }

    fn remove(&mut self, index: usize) -> (r: T) {
        proof {
            self.lemma_bufs();
        }
        let ghost bufs0 = self.bufs();
        let ghost cs0 = self.contents.slots();
        let (b, local) = self.locate(index);
        proof {
            lemma_flatten_split(bufs0, b as int);
            assert(bufs0 == old(self).buffers());
            assert(offset_of(bufs0, b as int) <= index < offset_of(bufs0, b as int) + bufs0[b as int].slots().len());
            assert(bufs0[b as int].removable_at(local as int));
        }
        let st = self.contents.get_unchecked_mut(b);
        let r = st.remove(local);
        self.len = self.len - 1;
        proof {
            let s1 = self.contents.slots()[b as int].unwrap();
            lemma_buffers_update(cs0, b as int, s1);
            lemma_flatten_update(bufs0, b as int, s1);
            assert(self.slots() =~= old(self).slots().remove(index as int));
        }
        r
    }

    fn get_unchecked_mut(&mut self, index: usize) -> (r: &mut T) {
        self.element_mut(index)
    }

    /// Pops from the last buffer that holds an element.
    fn pop(&mut self) -> (r: Option<T>) {
        proof {
            self.lemma_bufs();
        }
        let ghost bufs0 = self.bufs();
        let ghost cs0 = self.contents.slots();
        let mut b: usize = self.contents.len();
        while b > 0
            invariant
                self.inv(),
                self.bufs() == bufs0,
                self.contents.slots() == cs0,
                b <= bufs0.len(),
                bufs0.len() == cs0.len(),
                forall|k: int| b <= k < bufs0.len() ==> (#[trigger] bufs0[k]).slots().len() == 0,
                flatten(bufs0) == old(self).slots(),
                bufs0 == old(self).buffers(),
                flatten(bufs0).len() > 0 ==> old(self).removable_at(flatten(bufs0).len() - 1),
            decreases b,
        {
            proof {
                self.lemma_bufs();
                assert(self.bufs()[b - 1].well_formed());
            }
            if self.contents.get_unchecked(b - 1).len() > 0 {
                proof {
                    lemma_flatten_split(bufs0, b - 1);
                    assert forall|k: int| 0 <= k < bufs0.skip(b as int).len() implies (#[trigger] bufs0.skip(b as int)[k]).slots().len() == 0 by {
                        assert(bufs0.skip(b as int)[k] == bufs0[b + k]);
                    }
                    lemma_flatten_empty(bufs0.skip(b as int));
                    let off = offset_of(bufs0, b - 1);
                    assert(off <= flatten(bufs0).len() - 1 < off + bufs0[b - 1].slots().len());
                    assert(bufs0[b - 1].removable_at(bufs0[b - 1].slots().len() - 1));
                }
                let st = self.contents.get_unchecked_mut(b - 1);
                let e = st.pop();
                self.len = self.len - 1;
                proof {
                    let s1 = self.contents.slots()[b - 1].unwrap();
                    lemma_buffers_update(cs0, b - 1, s1);
                    lemma_flatten_update(bufs0, b - 1, s1);
                    assert(self.slots() =~= old(self).slots().drop_last());
                }
                return e;
            }
            b -= 1;
        }
        proof {
            assert(bufs0.skip(0) =~= bufs0);
            lemma_flatten_empty(bufs0);
        }
        None
    }

    /// The sum of the buffers' capacities, saturating at `usize::MAX`.
    fn capacity(&self) -> (r: usize) {
        proof {
            self.lemma_bufs();
            lemma_offsets(self.bufs());
        }
        let nb = self.contents.len();
        let mut capacity: usize = 0;
        let mut b: usize = 0;
        while b < nb
            invariant
                self.inv(),
                nb == self.bufs().len(),
                b <= nb,
                capacity >= offset_of(self.bufs(), b as int) || capacity == usize::MAX,
            decreases nb - b,
        {
            proof {
                self.lemma_bufs();
                lemma_flatten_split(self.bufs(), b as int);
            }
            capacity = capacity.saturating_add(self.contents.get_unchecked(b).capacity());
            b += 1;
        }
        capacity
    }

    /// Appends buffers allocated to the limit for `additional` elements, and one more for the
    /// remainder.
    fn reserve(&mut self, additional: usize)
        ensures
            final(self).buffers().take(old(self).buffers().len() as int) == old(self).buffers(),
            final(self).buffers().len() >= old(self).buffers().len(),
            forall|b: int|
                old(self).buffers().len() <= b < final(self).buffers().len() ==> (#[trigger] final(self).buffers()[b]).slots().len()
                    == 0,
            additional == 0 ==> final(self).buffers() == old(self).buffers(),
    {
        proof {
            self.lemma_bufs();
        }
        let ghost orig = self.bufs();
        if additional == 0 {
            return;
        }
        let limit = self.limit();
        let num_full_storages = additional / limit;
        let reserve_in_last_storage = additional % limit;
        let mut k: usize = 0;
        proof {
            assert(orig.take(orig.len() as int) =~= orig);
        }
        while k < num_full_storages && self.contents.len() < usize::MAX
            invariant
                self.inv(),
                self.slots() == old(self).slots(),
                self.limit == old(self).limit,
                orig == old(self).buffers(),
                self.bufs().len() >= orig.len(),
                self.bufs().take(orig.len() as int) == orig,
                forall|b: int| orig.len() <= b < self.bufs().len() ==> (#[trigger] self.bufs()[b]).slots().len() == 0,
            decreases num_full_storages - k,
        {
            proof {
                self.lemma_bufs();
            }
            let ghost bufs0 = self.bufs();
            let ghost cs0 = self.contents.slots();
            let st = S::with_capacity(limit);
            self.contents.push(st);
            proof {
                lemma_buffers_push(cs0, st);
                lemma_flatten_push(bufs0, st);
                assert(self.slots() =~= old(self).slots());
                assert(self.bufs().take(orig.len() as int) =~= bufs0.take(orig.len() as int));
                assert(forall|b: int| orig.len() <= b < bufs0.len() ==> #[trigger] self.bufs()[b] == bufs0[b]);
            }
            k += 1;
        }
        proof {
            self.lemma_bufs();
        }
        if reserve_in_last_storage > 0 && self.contents.len() < usize::MAX {
            let ghost bufs0 = self.bufs();
            let ghost cs0 = self.contents.slots();
            let st = S::with_capacity(reserve_in_last_storage);
            self.contents.push(st);
            proof {
                lemma_buffers_push(cs0, st);
                lemma_flatten_push(bufs0, st);
                assert(self.slots() =~= old(self).slots());
                assert(self.bufs().take(orig.len() as int) =~= bufs0.take(orig.len() as int));
                assert(forall|b: int| orig.len() <= b < bufs0.len() ==> #[trigger] self.bufs()[b] == bufs0[b]);
            }
        }
    }

    /// Removes the empty buffers at the front and shrinks the others.
    fn shrink_to_fit(&mut self)
        ensures
            exists|k: int|
                leading_empty(old(self).buffers(), k) && #[trigger] buffer_slots(final(self).buffers()) == buffer_slots(
                    old(self).buffers(),
                ).skip(k),
    {
        proof {
            self.lemma_bufs();
        }
        let ghost orig = self.bufs();
        let ghost mut k: int = 0;
        proof {
            assert(orig.skip(0) =~= orig);
            assert forall|x: int| 0 <= x < self.contents.slots().len() implies (#[trigger] self.contents.slots()[x]) == Some(
                self.bufs()[x],
            ) && self.bufs()[x].well_formed() by {
                assert(self.bufs()[x].well_formed());
            }
        }
        while self.contents.len() > 0 && self.contents.get_unchecked(0).len() == 0
            invariant
                self.inv(),
                self.slots() == old(self).slots(),
                orig == old(self).bufs(),
                0 <= k <= orig.len(),
                self.bufs() == orig.skip(k),
                forall|x: int| 0 <= x < k ==> (#[trigger] orig[x]).slots().len() == 0,
                forall|x: int|
                    0 <= x < self.contents.slots().len() ==> (#[trigger] self.contents.slots()[x]) == Some(self.bufs()[x])
                        && self.bufs()[x].well_formed(),
            decreases self.bufs().len(),
        {
            let ghost bufs0 = self.bufs();
            let ghost cs0 = self.contents.slots();
            proof {
                self.lemma_bufs();
                self.contents.lemma_dense_removable(0);
                assert(orig[k] == bufs0[0]);
            }
            self.contents.remove(0);
            proof {
                assert(buffers_of(cs0.remove(0)) =~= bufs0.remove(0));
                lemma_flatten_remove_empty(bufs0, 0);
                assert forall|x: int| 0 <= x < self.contents.slots().len() implies (#[trigger] self.contents.slots()[x]) is Some by {
                    assert(cs0.remove(0)[x] == cs0[x + 1]);
                }
                assert forall|x: int| 0 <= x < self.bufs().len() implies (#[trigger] self.bufs()[x]).well_formed() by {
                    assert(bufs0.remove(0)[x] == bufs0[x + 1]);
                }
                assert(self.bufs() =~= orig.skip(k + 1));
                k = k + 1;
                self.lemma_bufs();
            }
        }
        proof {
            self.lemma_bufs();
            if k < orig.len() {
                assert(orig[k] == self.bufs()[0]);
            }
            assert(leading_empty(orig, k));
        }
        let ghost kept = buffer_slots(self.bufs());
        let n = self.contents.len();
        let mut i: usize = 0;
        while i < n
            invariant
                self.inv(),
                self.slots() == old(self).slots(),
                n == self.bufs().len(),
                buffer_slots(self.bufs()) == kept,
            decreases n - i,
        {
            proof {
                self.lemma_bufs();
            }
            let ghost bufs0 = self.bufs();
            let ghost cs0 = self.contents.slots();
            proof {
                assert(bufs0[i as int].well_formed());
            }
            let st = self.contents.get_unchecked_mut(i);
            st.shrink_to_fit();
            proof {
                let s1 = self.contents.slots()[i as int].unwrap();
                lemma_buffers_update(cs0, i as int, s1);
                lemma_flatten_update(bufs0, i as int, s1);
                lemma_flatten_split(bufs0, i as int);
                assert(self.slots() =~= old(self).slots());
                assert(buffer_slots(self.bufs()) =~= buffer_slots(bufs0));
            }
            i += 1;
        }
        proof {
            assert(buffer_slots(orig).skip(k) =~= buffer_slots(orig.skip(k)));
            assert(buffer_slots(self.bufs()) == buffer_slots(old(self).buffers()).skip(k));
        }
    }

    /// Finds the buffer that holds position `len` and cuts it there, then empties the
    /// buffers after it.
    fn truncate(&mut self, len: usize) {
        if len >= self.len {
            return;
        }
        proof {
            self.lemma_bufs();
        }
        let ghost bufs0 = self.bufs();
        let ghost cs0 = self.contents.slots();
        let (b, local) = self.locate(len);
        proof {
            lemma_flatten_split(bufs0, b as int);
            assert(bufs0 == old(self).buffers());
            assert(old(self).truncatable(len as int));
            assert(len < offset_of(bufs0, b as int) + bufs0[b as int].slots().len());
            assert(bufs0[b as int].truncatable(local as int));
        }
        let st = self.contents.get_unchecked_mut(b);
        st.truncate(local);
        let ghost cut = self.contents.slots()[b as int].unwrap();
        proof {
            lemma_buffers_update(cs0, b as int, cut);
        }
        let nb = self.contents.len();
        let mut k: usize = b + 1;
        while k < nb
            invariant
                self.contents.well_formed(),
                all_occupied(self.contents.slots()),
                nb == bufs0.len(),
                b < k <= nb,
                self.bufs().len() == nb,
                bufs0 == old(self).buffers(),
                old(self).truncatable(len as int),
                offset_of(bufs0, b as int) + local == len,
                local < bufs0[b as int].slots().len(),
                forall|j: int| 0 <= j < nb ==> (#[trigger] self.bufs()[j]).well_formed(),
                forall|j: int| 0 <= j < b ==> #[trigger] self.bufs()[j] == bufs0[j],
                self.bufs()[b as int] == cut,
                forall|j: int| b < j < k ==> (#[trigger] self.bufs()[j]).slots().len() == 0,
                forall|j: int| k <= j < nb ==> #[trigger] self.bufs()[j] == bufs0[j],
                self.limit == old(self).limit,
            decreases nb - k,
        {
            let ghost bufs1 = self.bufs();
            let ghost cs1 = self.contents.slots();
            proof {
                assert(self.contents.slots()[k as int] == Some(bufs1[k as int]));
                lemma_flatten_split(bufs0, b as int);
                lemma_flatten_split(bufs0, k as int);
                lemma_offset_monotone(bufs0, b + 1, k as int);
                if bufs0[k as int].slots().len() > 0 {
                    assert(len < offset_of(bufs0, k as int) + bufs0[k as int].slots().len());
                    assert(bufs0[k as int].truncatable(0));
                }
            }
            let other = self.contents.get_unchecked_mut(k);
            other.truncate(0);
            proof {
                let s1 = self.contents.slots()[k as int].unwrap();
                lemma_buffers_update(cs1, k as int, s1);
            }
            k += 1;
        }
        self.len = len;
        proof {
            let bufs = self.bufs();
            lemma_flatten_split(bufs, b as int);
            assert(bufs.take(b as int) =~= bufs0.take(b as int));
            assert forall|j: int| 0 <= j < bufs.skip(b + 1).len() implies (#[trigger] bufs.skip(b + 1)[j]).slots().len() == 0 by {
                assert(bufs.skip(b + 1)[j] == bufs[b + 1 + j]);
            }
            lemma_flatten_empty(bufs.skip(b + 1));
            assert(self.slots() =~= old(self).slots().subrange(0, len as int));
        }
    }

    /// The buffer that takes position `index` (a new one, if there is none) became what
    /// that buffer's own `insert_and_shiftfix` makes of it at the local position; no other
    /// buffer changed.
    open spec fn inserted_and_fixed(&self, index: int, element: T, result: Self) -> bool
        where T: MoveFix
    {
        let bufs = self.buffers();
        let out = result.buffers();
        if bufs.len() == 0 {
            &&& out.len() == 1
            &&& exists|fresh: S|
                fresh.well_formed() && fresh.slots().len() == 0 && #[trigger] fresh.inserted_and_fixed(0, element, out[0])
        } else {
            exists|b: int|
                0 <= b < bufs.len() && #[trigger] offset_of(bufs, b) <= index && (index < offset_of(bufs, b)
                    + bufs[b].slots().len() || (b == bufs.len() - 1 && index == offset_of(bufs, b)
                    + bufs[b].slots().len())) && out == bufs.update(b, out[b]) && bufs[b].inserted_and_fixed(
                    index - offset_of(bufs, b),
                    element,
                    out[b],
                )
        }
    }

    /// The buffer that holds position `index` became what that buffer's own
    /// `remove_and_shiftfix` makes of it at the local position; no other buffer changed.
    open spec fn removed_and_fixed(&self, index: int, result: Self) -> bool
        where T: MoveFix
    {
        let bufs = self.buffers();
        let out = result.buffers();
        exists|b: int|
            0 <= b < bufs.len() && #[trigger] offset_of(bufs, b) <= index < offset_of(bufs, b) + bufs[b].slots().len()
                && out == bufs.update(b, out[b]) && bufs[b].removed_and_fixed(index - offset_of(bufs, b), out[b])
    }

    /// Inserts into the buffer that takes position `index`; only the elements of that buffer
    /// are told about the shift, in the buffer's own positions.
    fn insert_and_shiftfix(&mut self, index: usize, element: T)
        where T: MoveFix
    {
        proof {
            self.lemma_bufs();
        }
        let ghost bufs0 = self.bufs();
        let ghost cs0 = self.contents.slots();
        if self.contents.len() == 0 {
            let st = self.push_storage();
            let ghost fresh = *st;
            proof {
                assert(fresh.well_formed() && fresh.slots().len() == 0);
            }
            st.insert_and_shiftfix(0, element);
            self.len = self.len + 1;
            proof {
                let s1 = self.contents.slots()[0].unwrap();
                lemma_buffers_push(cs0, s1);
                lemma_flatten_push(bufs0, s1);
                assert(self.slots() =~= s1.slots());
                assert(fresh.slots().insert(0, Some(element)) =~= old(self).slots().insert(index as int, Some(element)));
                assert(occupancy(self.slots()) =~= occupancy(old(self).slots().insert(index as int, Some(element))));
                assert(self.bufs()[0] == s1);
                assert(self.bufs().len() == 1);
                assert(fresh.well_formed() && fresh.slots().len() == 0);
                assert(fresh.inserted_and_fixed(0, element, self.bufs()[0]));
                assert(old(self).buffers() == bufs0);
                assert(bufs0.len() == 0);
                assert(self.buffers()[0] == s1);
                assert(fresh.inserted_and_fixed(0, element, self.buffers()[0]));
                assert(old(self).inserted_and_fixed(index as int, element, *self));
            }
            return;
        }
        let (b, local) = self.locate_insert(index);
        proof {
            lemma_flatten_split(bufs0, b as int);
        }
        let st = self.contents.get_unchecked_mut(b);
        st.insert_and_shiftfix(local, element);
        self.len = self.len + 1;
        proof {
            let s0 = bufs0[b as int];
            let s1 = self.contents.slots()[b as int].unwrap();
            lemma_buffers_update(cs0, b as int, s1);
            lemma_flatten_update(bufs0, b as int, s1);
            let pre = flatten(bufs0.take(b as int));
            let post = flatten(bufs0.skip(b + 1));
            lemma_occupancy_concat(pre, s1.slots(), post);
            lemma_occupancy_concat(pre, s0.slots().insert(local as int, Some(element)), post);
            assert(pre + s0.slots().insert(local as int, Some(element)) + post
                =~= old(self).slots().insert(index as int, Some(element)));
            lemma_kept_concat(pre, s0.slots().insert(local as int, Some(element)), s1.slots(), post, 1isize);
            assert(occupancy(s1.slots()).len() == s1.slots().len());
            assert(self.bufs() == bufs0.update(b as int, s1));
            assert(self.bufs()[b as int] == s1);
            assert(bufs0 == old(self).buffers());
            assert(index - offset_of(bufs0, b as int) == local);
        }
    }

    /// Removes through the buffer that holds position `index`; only the elements of that
    /// buffer are told about what moved, in the buffer's own positions.
    fn remove_and_shiftfix(&mut self, index: usize) -> (r: T)
        where T: MoveFix
    {
        proof {
            self.lemma_bufs();
        }
        let ghost bufs0 = self.bufs();
        let ghost cs0 = self.contents.slots();
        let (b, local) = self.locate(index);
        proof {
            lemma_flatten_split(bufs0, b as int);
        }
        let st = self.contents.get_unchecked_mut(b);
        let before = st.len();
        let r = st.remove_and_shiftfix(local);
        let after = st.len();
        proof {
            let s0 = bufs0[b as int];
            assert(occupancy(st.slots()).len() == after);
            assert(occupancy(s0.slots().remove(local as int)).len() + 1 == before);
            assert(occupancy(s0.slots().update(local as int, None)).len() == before);
        }
        self.len = self.len - (before - after);
        proof {
            let s0 = bufs0[b as int];
            let s1 = self.contents.slots()[b as int].unwrap();
            lemma_buffers_update(cs0, b as int, s1);
            lemma_flatten_update(bufs0, b as int, s1);
            let pre = flatten(bufs0.take(b as int));
            let post = flatten(bufs0.skip(b + 1));
            lemma_occupancy_concat(pre, s1.slots(), post);
            lemma_occupancy_concat(pre, s0.slots().remove(local as int), post);
            lemma_occupancy_concat(pre, s0.slots().update(local as int, None), post);
            assert(pre + s0.slots().remove(local as int) + post =~= old(self).slots().remove(index as int));
            assert(pre + s0.slots().update(local as int, None) + post =~= old(self).slots().update(index as int, None));
            if kept_or_shifted(s0.slots().remove(local as int), s1.slots(), -1isize) {
                lemma_kept_concat(pre, s0.slots().remove(local as int), s1.slots(), post, -1isize);
            } else {
                lemma_kept_concat(pre, s0.slots().update(local as int, None), s1.slots(), post, -1isize);
            }
            assert(occupancy(s1.slots()).len() == s1.slots().len());
            assert(self.bufs() == bufs0.update(b as int, s1));
            assert(self.bufs()[b as int] == s1);
            assert(bufs0 == old(self).buffers());
            assert(index - offset_of(bufs0, b as int) == local);
        }
        r
    }
}

} // verus!
