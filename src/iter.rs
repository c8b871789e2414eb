use vstd::prelude::*;

verus! {

/// Types which have corresponding immutably borrowing iterators, like `Vec`'s `iter`.
pub trait IntoRefIterator<'a> {
    /// The item type over references to which iteration will be performed.
    type Item: 'a;
    /// The resulting iterator type.
    type Iter: Iterator<Item = &'a Self::Item>;

    /// Borrows the value into a by-reference iterator with immutable access.
    fn iter(&'a self) -> Self::Iter;
}

/// Types which have corresponding mutably borrowing iterators, like `Vec`'s `iter_mut`.
pub trait IntoMutIterator<'a> {
    /// The item type over mutable references to which iteration will be performed.
    type Item: 'a;
    /// The resulting iterator type.
    type IterMut: Iterator<Item = &'a mut Self::Item>;

    /// Borrows the value into a by-reference iterator with mutable access.
    fn iter_mut(&'a mut self) -> Self::IterMut;
}

#[verifier::external_type_specification]
#[verifier::external_body]
#[verifier::reject_recursive_types(T)]
pub struct ExSliceIterMut<'a, T: 'a>(core::slice::IterMut<'a, T>);

/// Relies on `<[T]>::iter_mut`, which only borrows the slice.
#[verifier::external_body]
fn slice_iter_mut<'a, T>(s: &'a mut [T]) -> core::slice::IterMut<'a, T> {
    s.iter_mut()
}

impl<'a, T: 'a> IntoRefIterator<'a> for Vec<T> {
    type Item = T;
    type Iter = core::slice::Iter<'a, T>;

    fn iter(&'a self) -> Self::Iter {
        self.as_slice().iter()
    }
}

impl<'a, T: 'a> IntoMutIterator<'a> for Vec<T> {
    type Item = T;
    type IterMut = core::slice::IterMut<'a, T>;

    fn iter_mut(&'a mut self) -> Self::IterMut {
        slice_iter_mut(self.as_mut_slice())
    }
}

} // verus!
