use granite::{Chain, DummyMoveFix, IntoRefIterator, ListStorage, UsizeAndFlag};

type VecChain = Chain<u32, Vec<u32>, Vec<Vec<u32>>>;

fn buffer_lengths(c: &VecChain) -> Vec<usize> {
    let mut lens = Vec::new();
    let mut it = c.iter();
    while let Some(p) = it.next() {
        lens.push(p.len());
    }
    lens
}

#[test]
fn limit_four_makes_three_buffers() {
    let mut c: VecChain = ListStorage::new();
    c.set_limit(4);
    for i in 0..10u32 {
        ListStorage::push(&mut c, i * 10);
    }
    assert_eq!(c.num_storages(), 3);
    assert_eq!(buffer_lengths(&c), vec![4, 4, 2]);
    for i in 0..10usize {
        assert_eq!(ListStorage::get(&c, i), Some(&(i as u32 * 10)));
    }
    assert!(ListStorage::get(&c, 10).is_none());
}

#[test]
fn new_buffers_grow_on_demand_without_allocate_to_limit() {
    let mut c: VecChain = ListStorage::new();
    c.set_limit(64);
    c.allocate_to_limit(false);
    assert!(!c.allocates_to_limit());
    for i in 0..65u32 {
        ListStorage::push(&mut c, i);
    }
    let mut it = c.iter();
    it.next();
    let second = it.next().unwrap();
    assert_eq!(second.len(), 1);
    assert!(second.capacity() < 64);
}

#[test]
fn new_buffers_allocated_to_limit() {
    let mut c: VecChain = ListStorage::new();
    c.set_limit(64);
    c.allocate_to_limit(true);
    assert!(c.allocates_to_limit());
    for i in 0..65u32 {
        ListStorage::push(&mut c, i);
    }
    let mut it = c.iter();
    it.next();
    let second = it.next().unwrap();
    assert_eq!(second.len(), 1);
    assert_eq!(second.capacity(), 64);
}

#[test]
fn limit_is_even_and_at_least_two() {
    let mut c: VecChain = ListStorage::new();
    assert_eq!(c.limit(), 512);
    c.set_limit(7);
    assert_eq!(c.limit(), 6);
    c.set_limit(1);
    assert_eq!(c.limit(), 2);
    c.set_limit(0);
    assert_eq!(c.limit(), 2);
    assert!(c.allocates_to_limit());
}

#[test]
fn insert_and_remove_across_buffers() {
    let mut c: VecChain = ListStorage::new();
    c.set_limit(2);
    for i in 0..6u32 {
        ListStorage::push(&mut c, i);
    }
    ListStorage::insert(&mut c, 3, 100);
    assert_eq!(ListStorage::len(&c), 7);
    let all: Vec<u32> = (0..7).map(|i| *ListStorage::get(&c, i).unwrap()).collect();
    assert_eq!(all, vec![0, 1, 2, 100, 3, 4, 5]);
    assert_eq!(ListStorage::remove(&mut c, 0), 0);
    assert_eq!(ListStorage::remove(&mut c, 5), 5);
    let all: Vec<u32> = (0..5).map(|i| *ListStorage::get(&c, i).unwrap()).collect();
    assert_eq!(all, vec![1, 2, 100, 3, 4]);
    ListStorage::insert(&mut c, 5, 9);
    assert_eq!(ListStorage::get(&c, 5), Some(&9));
}

#[test]
fn pop_and_truncate() {
    let mut c: VecChain = ListStorage::new();
    c.set_limit(2);
    assert_eq!(ListStorage::pop(&mut c), None);
    for i in 0..5u32 {
        ListStorage::push(&mut c, i);
    }
    assert_eq!(ListStorage::pop(&mut c), Some(4));
    assert_eq!(ListStorage::pop(&mut c), Some(3));
    ListStorage::truncate(&mut c, 1);
    assert_eq!(ListStorage::len(&c), 1);
    assert_eq!(ListStorage::get(&c, 0), Some(&0));
    ListStorage::truncate(&mut c, 5);
    assert_eq!(ListStorage::len(&c), 1);
}

#[test]
fn reserve_and_shrink_keep_elements() {
    let mut c: VecChain = ListStorage::with_capacity(3);
    assert_eq!(c.num_storages(), 1);
    c.set_limit(4);
    ListStorage::push(&mut c, 1);
    ListStorage::reserve(&mut c, 9);
    assert_eq!(c.num_storages(), 4);
    assert!(ListStorage::capacity(&c) >= 10);
    assert_eq!(ListStorage::len(&c), 1);
    ListStorage::shrink_to_fit(&mut c);
    assert_eq!(c.num_storages(), 4);
    assert_eq!(ListStorage::get(&c, 0), Some(&1));
    ListStorage::reserve(&mut c, 0);
    assert_eq!(c.num_storages(), 4);
}

#[test]
fn get_unchecked_mut_writes_through() {
    let mut c: VecChain = ListStorage::new();
    c.set_limit(2);
    for i in 0..5u32 {
        ListStorage::push(&mut c, i);
    }
    *ListStorage::get_unchecked_mut(&mut c, 3) = 30;
    assert_eq!(*ListStorage::get_unchecked(&c, 3), 30);
    assert_eq!(ListStorage::add(&mut c, 5), 5);
}

#[test]
fn usize_and_flag_packs_both() {
    let w = UsizeAndFlag::new(7, true);
    assert_eq!(w.size(), 6);
    assert!(w.flag());
    let mut w = UsizeAndFlag::new(10, false);
    assert_eq!(w.size(), 10);
    assert!(!w.flag());
    w.set_flag(true);
    assert_eq!(w.size(), 10);
    assert!(w.flag());
    w.set_size(5);
    assert_eq!(w.size(), 4);
    assert!(w.flag());
    assert_eq!(w.0, 5);
}

#[test]
fn truncate_inside_a_middle_buffer() {
    let mut c: VecChain = ListStorage::new();
    c.set_limit(2);
    for i in 0..7u32 {
        ListStorage::push(&mut c, i);
    }
    ListStorage::truncate(&mut c, 3);
    assert_eq!(ListStorage::len(&c), 3);
    assert_eq!(buffer_lengths(&c), vec![2, 1, 0, 0]);
    ListStorage::push(&mut c, 9);
    assert_eq!(ListStorage::get(&c, 3), Some(&9));
    assert_eq!(ListStorage::len(&c), 4);
}

#[test]
fn shiftfix_stays_within_one_buffer() {
    let mut c: Chain<DummyMoveFix<u32>, Vec<DummyMoveFix<u32>>, Vec<Vec<DummyMoveFix<u32>>>> =
        ListStorage::new();
    c.set_limit(2);
    for i in 0..4u32 {
        ListStorage::push(&mut c, DummyMoveFix(i));
    }
    ListStorage::insert_and_shiftfix(&mut c, 1, DummyMoveFix(10));
    assert_eq!(ListStorage::len(&c), 5);
    let removed = ListStorage::remove_and_shiftfix(&mut c, 3);
    assert_eq!(removed.0, 2);
    assert_eq!(ListStorage::len(&c), 4);
    let all: Vec<u32> = (0..4).map(|i| ListStorage::get(&c, i).unwrap().0).collect();
    assert_eq!(all, vec![0, 10, 1, 3]);
}

#[test]
fn proxies_iterate_over_elements() {
    let mut c: VecChain = ListStorage::new();
    c.set_limit(2);
    for i in 0..5u32 {
        ListStorage::push(&mut c, i);
    }
    let mut seen = Vec::new();
    let mut it = c.iter();
    while let Some(p) = it.next() {
        let values: Vec<u32> = IntoRefIterator::iter(&p).copied().collect();
        seen.push(values);
    }
    assert_eq!(seen, vec![vec![0, 1], vec![2, 3], vec![4]]);
    assert!(it.next().is_none());
}

#[test]
fn shrink_to_fit_drops_leading_empty_buffers() {
    let mut c: VecChain = ListStorage::with_capacity(10);
    assert_eq!(c.num_storages(), 1);
    ListStorage::shrink_to_fit(&mut c);
    assert_eq!(c.num_storages(), 0);
    assert_eq!(ListStorage::len(&c), 0);
}

#[test]
fn insert_on_a_boundary_goes_to_the_next_buffer() {
    let mut c: VecChain = ListStorage::new();
    c.set_limit(2);
    for i in 0..4u32 {
        ListStorage::push(&mut c, i);
    }
    ListStorage::insert(&mut c, 2, 50);
    assert_eq!(buffer_lengths(&c), vec![2, 3]);
    let all: Vec<u32> = (0..5).map(|i| *ListStorage::get(&c, i).unwrap()).collect();
    assert_eq!(all, vec![0, 1, 50, 2, 3]);
}

#[test]
fn removal_needs_only_the_owning_buffer_dense() {
    type Elem = DummyMoveFix<u32>;
    let mut c: Chain<Elem, granite::SparseVec<Elem>, Vec<granite::SparseVec<Elem>>> = ListStorage::new();
    c.set_limit(2);
    for i in 0..4u32 {
        ListStorage::push(&mut c, DummyMoveFix(i));
    }
    let punched = ListStorage::remove_and_shiftfix(&mut c, 0);
    assert_eq!(punched.0, 0);
    assert_eq!(ListStorage::len(&c), 4);
    assert_eq!(ListStorage::remove(&mut c, 3), DummyMoveFix(3));
    assert_eq!(ListStorage::pop(&mut c), Some(DummyMoveFix(2)));
    assert_eq!(ListStorage::len(&c), 2);
}

#[test]
fn shrink_to_fit_keeps_an_empty_middle_buffer() {
    let mut c: VecChain = ListStorage::new();
    c.set_limit(2);
    for i in 0..5u32 {
        ListStorage::push(&mut c, i);
    }
    for _ in 0..3 {
        ListStorage::remove(&mut c, 1);
    }
    assert_eq!(buffer_lengths(&c), vec![1, 0, 1]);
    ListStorage::shrink_to_fit(&mut c);
    assert_eq!(buffer_lengths(&c), vec![1, 0, 1]);
    ListStorage::remove(&mut c, 0);
    ListStorage::shrink_to_fit(&mut c);
    assert_eq!(buffer_lengths(&c), vec![1]);
    assert_eq!(ListStorage::get(&c, 0), Some(&4));
}
