use granite::{DummyMoveFix, ListStorage, MoveFix, Storage};

#[derive(Debug, Clone, PartialEq)]
struct Pointer {
    target: usize,
}

impl MoveFix for Pointer {
    fn shifted(&self, shifted_from: usize, shifted_by: isize) -> Self {
        let mut r = self.clone();
        r.fix_shift(shifted_from, shifted_by);
        r
    }

    fn moved(&self, previous_index: usize, current_index: usize) -> Self {
        let mut r = self.clone();
        r.fix_move(previous_index, current_index);
        r
    }

    fn fix_shift(&mut self, shifted_from: usize, shifted_by: isize) {
        if self.target >= shifted_from {
            self.target = (self.target as isize + shifted_by) as usize;
        }
    }

    fn fix_move(&mut self, previous_index: usize, current_index: usize) {
        if self.target == previous_index {
            self.target = current_index;
        }
    }
}

#[test]
fn vec_remove_and_shiftfix_fixes_positions() {
    let mut v: Vec<Pointer> = vec![Pointer { target: 3 }, Pointer { target: 0 }, Pointer { target: 2 }, Pointer { target: 1 }];
    let removed = ListStorage::remove_and_shiftfix(&mut v, 1);
    assert_eq!(removed, Pointer { target: 0 });
    assert_eq!(v, vec![Pointer { target: 2 }, Pointer { target: 1 }, Pointer { target: 0 }]);
}

#[test]
fn vec_insert_and_shiftfix_fixes_positions() {
    let mut v: Vec<Pointer> = vec![Pointer { target: 1 }, Pointer { target: 0 }];
    ListStorage::insert_and_shiftfix(&mut v, 0, Pointer { target: 9 });
    assert_eq!(v, vec![Pointer { target: 10 }, Pointer { target: 2 }, Pointer { target: 1 }]);
}

#[test]
fn vec_as_key_storage() {
    let mut v: Vec<DummyMoveFix<u32>> = Storage::new();
    assert_eq!(Storage::add(&mut v, DummyMoveFix(5)), 0);
    assert_eq!(Storage::add(&mut v, DummyMoveFix(6)), 1);
    assert_eq!(Storage::len(&v), 2);
    assert!(Storage::contains_key(&v, &1));
    assert!(!Storage::contains_key(&v, &2));
    assert_eq!(Storage::get(&v, &2), None);
    *Storage::get_unchecked_mut(&mut v, &0) = DummyMoveFix(50);
    assert_eq!(Storage::get(&v, &0), Some(&DummyMoveFix(50)));
    assert_eq!(Storage::remove(&mut v, &0), DummyMoveFix(50));
    assert_eq!(Storage::get(&v, &0), Some(&DummyMoveFix(6)));
    assert!(!Storage::is_empty(&v));
    assert!(Storage::capacity(&v) >= 1);
}

#[test]
fn vec_list_defaults() {
    let mut v: Vec<u32> = ListStorage::new();
    assert_eq!(ListStorage::pop(&mut v), None);
    ListStorage::push(&mut v, 1);
    ListStorage::push(&mut v, 2);
    ListStorage::push(&mut v, 3);
    assert_eq!(ListStorage::add(&mut v, 4), 3);
    ListStorage::truncate(&mut v, 2);
    assert_eq!(v, vec![1, 2]);
    assert_eq!(ListStorage::get(&v, 5), None);
    assert_eq!(ListStorage::pop(&mut v), Some(2));
}

#[test]
fn dummy_move_fix_ignores_hooks() {
    let mut d = DummyMoveFix(3u32);
    d.fix_shift(0, 4);
    d.fix_move(0, 1);
    d.fix_left_shift(0, 1);
    d.fix_right_shift(0, 1);
    assert_eq!(d.into_inner(), 3);
    let e: DummyMoveFix<u32> = 8.into();
    assert_eq!(e, DummyMoveFix(8));
}

#[test]
fn get_mut_through_both_traits() {
    let mut v: Vec<DummyMoveFix<u32>> = vec![DummyMoveFix(1), DummyMoveFix(2)];
    *ListStorage::get_mut(&mut v, 1).unwrap() = DummyMoveFix(20);
    assert!(ListStorage::get_mut(&mut v, 2).is_none());
    *Storage::get_mut(&mut v, &0).unwrap() = DummyMoveFix(10);
    assert!(Storage::get_mut(&mut v, &5).is_none());
    assert_eq!(v, vec![DummyMoveFix(10), DummyMoveFix(20)]);
}
