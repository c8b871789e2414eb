use granite::{DefaultStorage, DummyMoveFix, ListStorage, MoveFix, Slot, SparseStorage, SparseVec, Storage};

type Sparse<T> = SparseStorage<T, Vec<Slot<T>>>;

#[test]
fn aliases_name_the_vec_backed_storage() {
    let mut s: SparseVec<DummyMoveFix<u8>> = ListStorage::new();
    ListStorage::add(&mut s, DummyMoveFix(1));
    let d: DefaultStorage<DummyMoveFix<u8>> = s;
    assert_eq!(ListStorage::len(&d), 1);
}

/// An element that records its own position, and keeps it right through the hooks.
#[derive(Debug, Clone, PartialEq)]
struct SelfIndexed {
    id: u32,
    me: usize,
}

impl MoveFix for SelfIndexed {
    fn shifted(&self, shifted_from: usize, shifted_by: isize) -> Self {
        let mut r = self.clone();
        r.fix_shift(shifted_from, shifted_by);
        r
    }

    fn moved(&self, previous_index: usize, current_index: usize) -> Self {
        let mut r = self.clone();
        r.fix_move(previous_index, current_index);
        r
    }

    fn fix_shift(&mut self, shifted_from: usize, shifted_by: isize) {
        if self.me >= shifted_from {
            self.me = (self.me as isize + shifted_by) as usize;
        }
    }

    fn fix_move(&mut self, previous_index: usize, current_index: usize) {
        if self.me == previous_index {
            self.me = current_index;
        }
    }
}

#[test]
fn add_remove_reuse_scenario() {
    let mut s: Sparse<DummyMoveFix<u32>> = ListStorage::new();
    assert_eq!(ListStorage::add(&mut s, DummyMoveFix(10)), 0);
    assert_eq!(ListStorage::add(&mut s, DummyMoveFix(20)), 1);
    assert_eq!(ListStorage::add(&mut s, DummyMoveFix(30)), 2);
    let removed = ListStorage::remove_and_shiftfix(&mut s, 1);
    assert_eq!(removed.into_inner(), 20);
    assert_eq!(ListStorage::len(&s), 3);
    assert_eq!(s.num_holes(), 1);
    assert!(Storage::get(&s, &1).is_none());
    assert!(!Storage::contains_key(&s, &1));
    assert_eq!(ListStorage::add(&mut s, DummyMoveFix(25)), 1);
    assert_eq!(s.num_holes(), 0);
    assert!(s.is_dense());
    assert_eq!(ListStorage::get(&s, 1), Some(&DummyMoveFix(25)));
}

#[test]
fn holes_then_defragment() {
    let mut s: Sparse<DummyMoveFix<u32>> = ListStorage::with_capacity(32);
    ListStorage::add(&mut s, 0.into());
    ListStorage::add(&mut s, 1.into());
    ListStorage::add(&mut s, 2.into());
    assert_eq!(ListStorage::remove_and_shiftfix(&mut s, 1).0, 1);
    assert_eq!(ListStorage::len(&s), 3);
    assert_eq!(s.num_holes(), 1);
    assert_eq!(ListStorage::remove_and_shiftfix(&mut s, 2).0, 2);
    assert_eq!(s.num_holes(), 2);
    s.defragment();
    assert_eq!(s.num_holes(), 0);
    assert!(s.is_dense());
    assert_eq!(ListStorage::len(&s), 1);
    assert_eq!(ListStorage::get(&s, 0), Some(&DummyMoveFix(0)));
}

#[test]
fn removal_keeps_other_keys() {
    let mut s: Sparse<DummyMoveFix<u32>> = ListStorage::new();
    for v in 0..6u32 {
        ListStorage::add(&mut s, DummyMoveFix(v * 100));
    }
    ListStorage::remove_and_shiftfix(&mut s, 2);
    ListStorage::remove_and_shiftfix(&mut s, 4);
    for k in [0usize, 1, 3, 5] {
        assert_eq!(Storage::get(&s, &k), Some(&DummyMoveFix(k as u32 * 100)));
    }
    assert!(Storage::get(&s, &2).is_none());
    assert!(Storage::get(&s, &4).is_none());
}

#[test]
fn live_count_follows_adds_and_removes() {
    let mut s: Sparse<DummyMoveFix<u32>> = ListStorage::new();
    let mut keys = Vec::new();
    for v in 0..5u32 {
        keys.push(ListStorage::add(&mut s, DummyMoveFix(v)));
    }
    ListStorage::remove_and_shiftfix(&mut s, keys[3]);
    ListStorage::remove_and_shiftfix(&mut s, keys[0]);
    assert_eq!(ListStorage::len(&s) - s.num_holes(), 3);
    let k = ListStorage::add(&mut s, DummyMoveFix(50));
    assert_eq!(ListStorage::len(&s) - s.num_holes(), 4);
    assert_eq!(Storage::get(&s, &k), Some(&DummyMoveFix(50)));
    for (v, key) in keys.iter().enumerate() {
        if *key != keys[3] && *key != keys[0] {
            assert_eq!(Storage::get(&s, key), Some(&DummyMoveFix(v as u32)));
        }
    }
}

#[test]
fn round_trip_empties_and_reuses() {
    let mut s: Sparse<DummyMoveFix<u32>> = ListStorage::new();
    for v in 0..4u32 {
        ListStorage::add(&mut s, DummyMoveFix(v));
    }
    for k in [2usize, 0, 3, 1] {
        Storage::remove(&mut s, &k);
    }
    assert_eq!(ListStorage::len(&s) - s.num_holes(), 0);
    let k = ListStorage::add(&mut s, DummyMoveFix(9));
    assert!(k < 4);
    assert_eq!(ListStorage::len(&s), 4);
}

#[test]
fn defragment_keeps_live_elements() {
    let mut s: Sparse<DummyMoveFix<u32>> = ListStorage::new();
    for v in 0..8u32 {
        ListStorage::add(&mut s, DummyMoveFix(v));
    }
    for k in [0usize, 3, 6] {
        ListStorage::remove_and_shiftfix(&mut s, k);
    }
    s.defragment();
    assert_eq!(s.num_holes(), 0);
    let mut values: Vec<u32> = (0..ListStorage::len(&s)).map(|i| ListStorage::get(&s, i).unwrap().0).collect();
    values.sort();
    assert_eq!(values, vec![1, 2, 4, 5, 7]);
}

#[test]
fn defragment_and_fix_keeps_tracked_positions() {
    let mut s: Sparse<SelfIndexed> = ListStorage::new();
    for id in 0..7u32 {
        ListStorage::add(&mut s, SelfIndexed { id, me: id as usize });
    }
    for k in [1usize, 2, 5] {
        ListStorage::remove_and_shiftfix(&mut s, k);
    }
    s.defragment_and_fix();
    assert_eq!(s.num_holes(), 0);
    assert_eq!(ListStorage::len(&s), 4);
    let mut ids = Vec::new();
    for i in 0..ListStorage::len(&s) {
        let t = ListStorage::get(&s, i).unwrap();
        assert_eq!(t.me, i);
        ids.push(t.id);
    }
    ids.sort();
    assert_eq!(ids, vec![0, 3, 4, 6]);
}

#[test]
fn defragment_on_dense_storage_changes_nothing() {
    let mut s: Sparse<DummyMoveFix<u32>> = ListStorage::new();
    s.defragment();
    assert_eq!(ListStorage::len(&s), 0);
    ListStorage::add(&mut s, DummyMoveFix(1));
    ListStorage::add(&mut s, DummyMoveFix(2));
    s.defragment();
    assert_eq!(ListStorage::get(&s, 0), Some(&DummyMoveFix(1)));
    assert_eq!(ListStorage::get(&s, 1), Some(&DummyMoveFix(2)));
}

#[test]
fn all_holes_defragment_to_empty() {
    let mut s: Sparse<DummyMoveFix<u32>> = ListStorage::new();
    for v in 0..3u32 {
        ListStorage::add(&mut s, DummyMoveFix(v));
    }
    for k in 0..3usize {
        ListStorage::remove_and_shiftfix(&mut s, k);
    }
    assert_eq!(s.num_holes(), 3);
    s.defragment();
    assert_eq!(ListStorage::len(&s), 0);
    assert!(s.is_dense());
}

#[test]
fn holes_are_reused_in_removal_order() {
    let mut s: Sparse<DummyMoveFix<u32>> = ListStorage::new();
    for v in 0..5u32 {
        ListStorage::add(&mut s, DummyMoveFix(v));
    }
    ListStorage::remove_and_shiftfix(&mut s, 3);
    ListStorage::remove_and_shiftfix(&mut s, 1);
    assert_eq!(ListStorage::add(&mut s, DummyMoveFix(30)), 3);
    assert_eq!(ListStorage::add(&mut s, DummyMoveFix(10)), 1);
    assert_eq!(ListStorage::add(&mut s, DummyMoveFix(50)), 5);
}

#[test]
fn dense_list_operations() {
    let mut s: Sparse<DummyMoveFix<u32>> = ListStorage::new();
    ListStorage::push(&mut s, DummyMoveFix(1));
    ListStorage::push(&mut s, DummyMoveFix(3));
    ListStorage::insert(&mut s, 1, DummyMoveFix(2));
    assert_eq!(ListStorage::get(&s, 1), Some(&DummyMoveFix(2)));
    assert_eq!(ListStorage::remove(&mut s, 0), DummyMoveFix(1));
    assert_eq!(ListStorage::pop(&mut s), Some(DummyMoveFix(3)));
    assert_eq!(ListStorage::len(&s), 1);
    *ListStorage::get_unchecked_mut(&mut s, 0) = DummyMoveFix(7);
    assert_eq!(*ListStorage::get_unchecked(&s, 0), DummyMoveFix(7));
    ListStorage::truncate(&mut s, 0);
    assert!(ListStorage::is_empty(&s));
    assert_eq!(ListStorage::pop(&mut s), None);
}

#[test]
fn into_inner_returns_slots() {
    let mut s: Sparse<DummyMoveFix<u32>> = ListStorage::new();
    ListStorage::add(&mut s, DummyMoveFix(1));
    ListStorage::add(&mut s, DummyMoveFix(2));
    ListStorage::remove_and_shiftfix(&mut s, 0);
    let inner = s.into_inner();
    assert_eq!(inner.len(), 2);
}

#[test]
fn insert_moves_holes_along() {
    let mut s: Sparse<DummyMoveFix<u32>> = ListStorage::new();
    for v in 0..5u32 {
        ListStorage::add(&mut s, DummyMoveFix(v));
    }
    ListStorage::remove_and_shiftfix(&mut s, 1);
    ListStorage::remove_and_shiftfix(&mut s, 3);
    ListStorage::insert(&mut s, 2, DummyMoveFix(99));
    assert_eq!(ListStorage::len(&s), 6);
    assert_eq!(s.num_holes(), 2);
    assert!(!Storage::contains_key(&s, &1));
    assert!(!Storage::contains_key(&s, &4));
    assert_eq!(Storage::get(&s, &2), Some(&DummyMoveFix(99)));
    assert_eq!(Storage::get(&s, &3), Some(&DummyMoveFix(2)));
    assert_eq!(Storage::get(&s, &5), Some(&DummyMoveFix(4)));
    assert_eq!(ListStorage::add(&mut s, DummyMoveFix(10)), 1);
    assert_eq!(ListStorage::add(&mut s, DummyMoveFix(30)), 4);
    assert_eq!(ListStorage::add(&mut s, DummyMoveFix(60)), 6);
    assert!(s.is_dense());
}

#[test]
fn insert_and_shiftfix_with_holes_fixes_positions() {
    let mut s: Sparse<SelfIndexed> = ListStorage::new();
    for id in 0..4u32 {
        ListStorage::add(&mut s, SelfIndexed { id, me: id as usize });
    }
    ListStorage::remove_and_shiftfix(&mut s, 0);
    ListStorage::insert_and_shiftfix(&mut s, 1, SelfIndexed { id: 7, me: 0 });
    for k in 1..5usize {
        let t = Storage::get(&s, &k).unwrap();
        if t.id != 7 {
            assert_eq!(t.me, k);
        }
    }
    assert_eq!(s.num_holes(), 1);
}

#[test]
fn truncate_past_the_end_keeps_holes() {
    let mut s: Sparse<DummyMoveFix<u32>> = ListStorage::new();
    for v in 0..3u32 {
        ListStorage::add(&mut s, DummyMoveFix(v));
    }
    ListStorage::remove_and_shiftfix(&mut s, 1);
    ListStorage::truncate(&mut s, 3);
    assert_eq!(ListStorage::len(&s), 3);
    assert_eq!(s.num_holes(), 1);
    assert_eq!(ListStorage::add(&mut s, DummyMoveFix(7)), 1);
}

#[test]
fn truncate_with_holes_keeps_the_surviving_ones_in_order() {
    let mut s: Sparse<DummyMoveFix<u32>> = ListStorage::new();
    for v in 0..6u32 {
        ListStorage::add(&mut s, DummyMoveFix(v));
    }
    ListStorage::remove_and_shiftfix(&mut s, 2);
    ListStorage::remove_and_shiftfix(&mut s, 4);
    ListStorage::remove_and_shiftfix(&mut s, 1);
    ListStorage::truncate(&mut s, 3);
    assert_eq!(ListStorage::len(&s), 3);
    assert_eq!(s.num_holes(), 2);
    assert_eq!(Storage::get(&s, &0), Some(&DummyMoveFix(0)));
    assert_eq!(ListStorage::add(&mut s, DummyMoveFix(20)), 2);
    assert_eq!(ListStorage::add(&mut s, DummyMoveFix(10)), 1);
    assert_eq!(ListStorage::add(&mut s, DummyMoveFix(30)), 3);
    assert!(s.is_dense());
}
