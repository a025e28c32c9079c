use bonzai::pinned_vec::{OutOfBounds, PinnedVec};

fn filled(extension_size: usize, count: i32) -> PinnedVec<i32> {
    let mut store = PinnedVec::new(extension_size);
    for value in 0..count {
        store.push(value * 10);
    }
    store
}

fn collect(store: &PinnedVec<i32>) -> Vec<i32> {
    let mut walk = store.iter();
    let mut out = Vec::new();
    while let Some(value) = walk.next() {
        out.push(*value);
    }
    out
}

#[test]
fn new_store_is_empty() {
    let mut store: PinnedVec<i32> = PinnedVec::new(6);
    assert_eq!(store.len(), 0);
    assert_eq!(store.pop(), None);
    assert_eq!(store.index(0), Err(OutOfBounds(0)));
    assert_eq!(collect(&store), Vec::<i32>::new());
}

#[test]
fn push_spills_into_further_segments() {
    let store = filled(2, 5);
    assert_eq!(store.len(), 5);
    for i in 0..5 {
        assert_eq!(store.index(i), Ok(&(i as i32 * 10)));
    }
    assert_eq!(collect(&store), vec![0, 10, 20, 30, 40]);
}

#[test]
fn index_beyond_the_end_is_out_of_bounds() {
    let mut store = filled(2, 5);
    assert_eq!(store.index(5), Err(OutOfBounds(5)));
    assert_eq!(store.index(99), Err(OutOfBounds(99)));
    assert_eq!(store.index_mut(5).err(), Some(OutOfBounds(5)));
    assert_eq!(store.len(), 5);
}

#[test]
fn index_mut_changes_one_element() {
    let mut store = filled(2, 5);
    *store.index_mut(3).unwrap() = 7;
    *store.index_mut(0).unwrap() += 1;
    assert_eq!(collect(&store), vec![1, 10, 20, 7, 40]);
}

#[test]
fn pop_returns_the_last_element_across_segments() {
    let mut store = filled(6, 7);
    assert_eq!(store.pop(), Some(60));
    assert_eq!(store.pop(), Some(50));
    assert_eq!(store.len(), 5);
    assert_eq!(store.pop(), Some(40));
    store.push(1);
    assert_eq!(collect(&store), vec![0, 10, 20, 30, 1]);
}

#[test]
fn pop_until_empty() {
    let mut store = filled(1, 3);
    assert_eq!(store.pop(), Some(20));
    assert_eq!(store.pop(), Some(10));
    assert_eq!(store.pop(), Some(0));
    assert_eq!(store.pop(), None);
    assert_eq!(store.len(), 0);
}

#[test]
fn swap_remove_moves_the_last_element_in() {
    let mut store = filled(2, 5);
    assert_eq!(store.swap_remove(1), 10);
    assert_eq!(collect(&store), vec![0, 40, 20, 30]);
}

#[test]
fn swap_remove_of_the_last_element_just_pops() {
    let mut store = filled(2, 5);
    assert_eq!(store.swap_remove(4), 40);
    assert_eq!(collect(&store), vec![0, 10, 20, 30]);
    let mut single = filled(6, 1);
    assert_eq!(single.swap_remove(0), 0);
    assert_eq!(single.len(), 0);
}

#[test]
fn compress_keeps_positions_and_elements() {
    let mut store = filled(2, 7);
    store.compress();
    assert_eq!(store.len(), 7);
    assert_eq!(collect(&store), vec![0, 10, 20, 30, 40, 50, 60]);
    store.push(70);
    assert_eq!(store.index(7), Ok(&70));
    assert_eq!(store.pop(), Some(70));
    assert_eq!(store.swap_remove(0), 0);
    assert_eq!(collect(&store), vec![60, 10, 20, 30, 40, 50]);
}

#[test]
fn shrink_to_fit_keeps_positions_and_elements() {
    let mut store = filled(3, 8);
    store.shrink_to_fit();
    assert_eq!(collect(&store), vec![0, 10, 20, 30, 40, 50, 60, 70]);
    store.push(80);
    assert_eq!(store.len(), 9);
    assert_eq!(store.index(8), Ok(&80));
}

#[test]
fn walk_ends_once() {
    let store = filled(2, 3);
    let mut walk = store.iter();
    assert_eq!(walk.next(), Some(&0));
    assert_eq!(walk.next(), Some(&10));
    assert_eq!(walk.next(), Some(&20));
    assert_eq!(walk.next(), None);
    assert_eq!(walk.next(), None);
}
