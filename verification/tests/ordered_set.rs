use bonzai::bst::BinarySearchTree;
use bonzai::read::NodeReadGuard;

fn walk_in_order(guard: &NodeReadGuard<i32, 2>, out: &mut Vec<i32>) {
    if let Some(left) = guard.child(0).unwrap() {
        walk_in_order(&left, out);
    }
    out.push(*guard.elem);
    if let Some(right) = guard.child(1).unwrap() {
        walk_in_order(&right, out);
    }
}

fn in_order(set: &BinarySearchTree<i32>) -> Vec<i32> {
    let mut out = Vec::new();
    if let Some(root) = set.tree().read_root() {
        walk_in_order(&root, &mut out);
    }
    out
}

fn set_of(elems: &[i32]) -> BinarySearchTree<i32> {
    let mut set = BinarySearchTree::new();
    for elem in elems {
        set.insert(*elem);
    }
    set
}

fn elem_at(set: &BinarySearchTree<i32>, path: &[usize]) -> Option<i32> {
    let mut at = set.tree().read_root()?;
    for branch in path {
        at = at.child(*branch).unwrap()?;
    }
    Some(*at.elem)
}

#[test]
fn new_set_is_empty() {
    let set: BinarySearchTree<i32> = BinarySearchTree::new();
    assert_eq!(in_order(&set), Vec::<i32>::new());
    assert_eq!(set.tree().debug_nodes().len(), 0);
}

#[test]
fn ordered_set_insert() {
    let set = set_of(&[0, 2, -1, -2, 1]);
    assert_eq!(elem_at(&set, &[]), Some(0));
    assert_eq!(elem_at(&set, &[0]), Some(-1));
    assert_eq!(elem_at(&set, &[0, 0]), Some(-2));
    assert_eq!(elem_at(&set, &[0, 1]), None);
    assert_eq!(elem_at(&set, &[1]), Some(2));
    assert_eq!(elem_at(&set, &[1, 0]), Some(1));
    assert_eq!(elem_at(&set, &[1, 1]), None);
    assert_eq!(in_order(&set), vec![-2, -1, 0, 1, 2]);
    assert_eq!(set.tree().debug_nodes().len(), 5);
}

#[test]
fn ordered_set_remove_two_children() {
    let mut set = set_of(&[0, 2, -1, -2, 1]);
    set.remove(0);
    assert_eq!(elem_at(&set, &[]), Some(1));
    assert_eq!(elem_at(&set, &[1]), Some(2));
    assert_eq!(elem_at(&set, &[1, 0]), None);
    assert_eq!(elem_at(&set, &[1, 1]), None);
    assert_eq!(elem_at(&set, &[0]), Some(-1));
    assert_eq!(elem_at(&set, &[0, 0]), Some(-2));
    assert_eq!(in_order(&set), vec![-2, -1, 1, 2]);
    assert_eq!(set.tree().debug_nodes().len(), 4);
    assert_eq!(set.tree().debug_nodes().garbage_count(), 0);
}

#[test]
fn insert_of_a_held_element_changes_nothing() {
    let mut set = set_of(&[5, 3, 8]);
    set.insert(3);
    set.insert(5);
    set.insert(8);
    assert_eq!(in_order(&set), vec![3, 5, 8]);
    assert_eq!(set.tree().debug_nodes().len(), 3);
}

#[test]
fn remove_of_a_missing_element_changes_nothing() {
    let mut set = set_of(&[5, 3, 8]);
    set.remove(4);
    set.remove(9);
    assert_eq!(in_order(&set), vec![3, 5, 8]);
    assert_eq!(elem_at(&set, &[]), Some(5));
    let mut empty: BinarySearchTree<i32> = BinarySearchTree::new();
    empty.remove(1);
    assert_eq!(in_order(&empty), Vec::<i32>::new());
}

#[test]
fn remove_a_leaf() {
    let mut set = set_of(&[5, 3, 8]);
    set.remove(3);
    assert_eq!(in_order(&set), vec![5, 8]);
    assert_eq!(elem_at(&set, &[]), Some(5));
    assert_eq!(elem_at(&set, &[0]), None);
    set.remove(8);
    set.remove(5);
    assert_eq!(in_order(&set), Vec::<i32>::new());
    assert_eq!(set.tree().debug_nodes().len(), 0);
}

#[test]
fn remove_a_node_with_one_child() {
    let mut set = set_of(&[5, 3, 1, 8, 9]);
    set.remove(3);
    assert_eq!(elem_at(&set, &[0]), Some(1));
    set.remove(8);
    assert_eq!(elem_at(&set, &[1]), Some(9));
    assert_eq!(in_order(&set), vec![1, 5, 9]);
    set.remove(5);
    assert_eq!(elem_at(&set, &[]), Some(9));
    assert_eq!(elem_at(&set, &[0]), Some(1));
    assert_eq!(in_order(&set), vec![1, 9]);
}

#[test]
fn remove_where_the_second_branch_has_no_first_branch() {
    let mut set = set_of(&[5, 3, 8, 9]);
    set.remove(5);
    assert_eq!(elem_at(&set, &[]), Some(8));
    assert_eq!(elem_at(&set, &[0]), Some(3));
    assert_eq!(elem_at(&set, &[1]), Some(9));
    assert_eq!(in_order(&set), vec![3, 8, 9]);
}

#[test]
fn remove_where_the_least_node_has_a_second_branch() {
    let mut set = set_of(&[5, 3, 10, 6, 8, 7, 12]);
    set.remove(5);
    assert_eq!(elem_at(&set, &[]), Some(6));
    assert_eq!(elem_at(&set, &[0]), Some(3));
    assert_eq!(elem_at(&set, &[1]), Some(10));
    assert_eq!(elem_at(&set, &[1, 0]), Some(8));
    assert_eq!(elem_at(&set, &[1, 0, 0]), Some(7));
    assert_eq!(elem_at(&set, &[1, 1]), Some(12));
    assert_eq!(in_order(&set), vec![3, 6, 7, 8, 10, 12]);
    assert_eq!(set.tree().debug_nodes().len(), 6);
}

#[test]
fn walk_in_order_is_increasing_after_many_changes() {
    let mut set: BinarySearchTree<i32> = BinarySearchTree::new();
    let mut model: Vec<i32> = Vec::new();
    let mut seed: u32 = 12345;
    for step in 0..400 {
        seed = seed.wrapping_mul(1103515245).wrapping_add(12345);
        let value = ((seed >> 16) % 40) as i32 - 20;
        if step % 3 == 2 {
            set.remove(value);
            model.retain(|held| *held != value);
        } else {
            set.insert(value);
            if !model.contains(&value) {
                model.push(value);
            }
        }
        model.sort();
        let walked = in_order(&set);
        assert_eq!(walked, model);
        for pair in walked.windows(2) {
            assert!(pair[0] < pair[1]);
        }
        assert_eq!(set.tree().debug_nodes().len(), model.len());
        assert_eq!(set.tree().debug_nodes().garbage_count(), 0);
    }
}
