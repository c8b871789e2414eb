use vstd::prelude::*;
use crate::list::{lemma_shifted_all_kept, occupancy, present, shifted_all, ListStorage, MoveFix};

verus! {

/// Relies on `Vec::capacity`: the vector always has room for at least its own elements.
#[verifier::external_body]
fn vec_capacity<T>(v: &Vec<T>) -> (r: usize)
    ensures
        r >= v@.len(),
{
    v.capacity()
}

/// Relies on `Vec::shrink_to_fit`: only the allocation changes, never the elements.
#[verifier::external_body]
fn vec_shrink_to_fit<T>(v: &mut Vec<T>)
    ensures
        final(v)@ == old(v)@,
{
    v.shrink_to_fit()
}

impl<T> ListStorage for Vec<T> {
    type Element = T;

    open spec fn slots(&self) -> Seq<Option<T>> {
        present(self@)
    }

    open spec fn well_formed(&self) -> bool {
        true
    }

    open spec fn removable_at(&self, index: int) -> bool {
        true
    }

    open spec fn truncatable(&self, len: int) -> bool {
        true
    }

    proof fn lemma_dense_removable(&self, index: int) {
    }

    open spec fn inserted_and_fixed(&self, index: int, element: T, result: Self) -> bool
        where T: MoveFix
    {
        result.slots() == shifted_all(self.slots().insert(index, Some(element)), index as usize, 1isize)
    }

    open spec fn removed_and_fixed(&self, index: int, result: Self) -> bool
        where T: MoveFix
    {
        result.slots() == shifted_all(self.slots().remove(index), index as usize, -1isize)
    }

    fn insert_and_shiftfix(&mut self, index: usize, element: T)
        where T: MoveFix
    {
        Vec::insert(self, index, element);
        let ghost inserted = self@;
        let n = Vec::len(self);
        let mut i: usize = 0;
        while i < n
            invariant
                self@.len() == n,
                inserted.len() == n,
                inserted == old(self)@.insert(index as int, element),
                forall|x: int|
                    0 <= x < n ==> #[trigger] self@[x] == (if x < i {
                        inserted[x].shifted(index, 1isize)
                    } else {
                        inserted[x]
                    }),
            decreases n - i,
        {
            let e = &mut self[i];
            e.fix_right_shift(index, 1);
            i += 1;
        }
        proof {
            assert(present(old(self)@).insert(index as int, Some(element)) =~= present(inserted));
            assert(present(self@) =~= shifted_all(present(inserted), index, 1isize));
            lemma_shifted_all_kept(present(inserted), index, 1isize);
            assert(occupancy(self.slots()) =~= occupancy(old(self).slots().insert(index as int, Some(element))));
        }
    }

    fn with_capacity(capacity: usize) -> (r: Self) {
        let r = Vec::with_capacity(capacity);
        assert(present(r@) =~= Seq::<Option<T>>::empty());
        r
    }

    fn insert(&mut self, index: usize, element: T) {
        Vec::insert(self, index, element);
        assert(present(self@) =~= present(old(self)@).insert(index as int, Some(element)));
    }

    fn remove(&mut self, index: usize) -> (r: T) {
        let r = Vec::remove(self, index);
        assert(present(self@) =~= present(old(self)@).remove(index as int));
        r
    }

    fn len(&self) -> (r: usize) {
        Vec::len(self)
    }

    fn is_occupied(&self, index: usize) -> (r: bool) {
        true
    }

    fn get_unchecked(&self, index: usize) -> (r: &T) {
        &self[index]
    }

    fn get_unchecked_mut(&mut self, index: usize) -> (r: &mut T) {
        &mut self[index]
    }

    fn new() -> (r: Self) {
        let r = Vec::new();
        assert(present(r@) =~= Seq::<Option<T>>::empty());
        r
    }

    fn push(&mut self, element: T) {
        Vec::push(self, element);
        assert(present(self@) =~= present(old(self)@).push(Some(element)));
    }

    fn pop(&mut self) -> (r: Option<T>) {
        let r = Vec::pop(self);
        proof {
            if old(self)@.len() > 0 {
                assert(present(self@) =~= present(old(self)@).drop_last());
            } else {
                assert(present(self@) =~= present(old(self)@));
            }
        }
        r
    }

    fn capacity(&self) -> (r: usize) {
        vec_capacity(self)
    }

    fn reserve(&mut self, additional: usize) {
        Vec::reserve(self, additional)
    }

    fn shrink_to_fit(&mut self) {
        vec_shrink_to_fit(self)
    }

    fn truncate(&mut self, len: usize) {
        Vec::truncate(self, len);
        assert(len < old(self)@.len() ==> present(self@) =~= present(old(self)@).subrange(0, len as int));
        assert(len >= old(self)@.len() ==> present(self@) =~= present(old(self)@));
    }

    fn remove_and_shiftfix(&mut self, index: usize) -> (r: T)
        where T: MoveFix
        ensures
            final(self).slots() == shifted_all(old(self).slots().remove(index as int), index, -1isize),
    {
        let r = Vec::remove(self, index);
        let ghost removed = self@;
        let n = Vec::len(self);
        let mut i: usize = 0;
        while i < n
            invariant
                self@.len() == n,
                n == old(self)@.len() - 1,
                removed.len() == n,
                forall|x: int|
                    0 <= x < n ==> #[trigger] self@[x] == (if x < i {
                        removed[x].shifted(index, -1isize)
                    } else {
                        removed[x]
                    }),
            decreases n - i,
        {
            let e = &mut self[i];
            e.fix_left_shift(index, 1);
            i += 1;
        }
        assert(present(self@) =~= shifted_all(old(self).slots().remove(index as int), index, -1isize));
        proof {
            lemma_shifted_all_kept(old(self).slots().remove(index as int), index, -1isize);
        }
        assert(occupancy(self.slots()) =~= occupancy(old(self).slots().remove(index as int)));
        r
    }
}

} // verus!
