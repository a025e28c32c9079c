use bonzai::convert::{IntoReadGuard, IntoWriteGuard};
use bonzai::guard::NodeWriteGuard;
use bonzai::node::{
    AboveMe, ChildId, ChildNotFound, InvalidBranchIndex, NoParent, NodeIndex, ParentId,
    WrongChildrenNum,
};
use bonzai::read::NodeReadGuard;
use bonzai::tree::Tree;

fn walk_in_order(guard: &NodeReadGuard<i32, 2>, out: &mut Vec<i32>) {
    if let Some(left) = guard.child(0).unwrap() {
        walk_in_order(&left, out);
    }
    out.push(*guard.elem);
    if let Some(right) = guard.child(1).unwrap() {
        walk_in_order(&right, out);
    }
}

fn in_order(tree: &Tree<i32, 2>) -> Vec<i32> {
    let mut out = Vec::new();
    if let Some(root) = tree.read_root() {
        walk_in_order(&root, &mut out);
    }
    out
}

/// Root 1 with the children 2 and 3.
fn small_tree() -> Tree<i32, 2> {
    let mut tree = Tree::<i32, 2>::new();
    let mut op = tree.operation();
    assert!(!op.put_root_elem(1));
    let root = op.write_root().unwrap();
    let children = root.children();
    assert_eq!(children.put_child_elem(&mut op, 0, 2), Ok(false));
    assert_eq!(children.put_child_elem(&mut op, 1, 3), Ok(false));
    op.finish_and_gc();
    tree
}

/// What the store of `tree` looks like: per slot the parent tag, or `None`
/// for garbage, and the child references.
fn store_of(tree: &Tree<i32, 2>) -> Vec<(Option<ParentId>, [Option<usize>; 2])> {
    let nodes = tree.debug_nodes();
    (0..nodes.len())
        .map(|i| {
            (
                nodes.parent(i),
                [nodes.child(i, 0).unwrap().index, nodes.child(i, 1).unwrap().index],
            )
        })
        .collect()
}

fn check_mirror(tree: &Tree<i32, 2>) {
    let nodes = tree.debug_nodes();
    let mut roots = 0;
    for i in 0..nodes.len() {
        match nodes.parent(i) {
            Some(ParentId::Attached { parent_index, this_branch }) => {
                assert!(nodes.parent(parent_index).is_some());
                assert_eq!(nodes.child(parent_index, this_branch), Some(ChildId { index: Some(i) }));
            }
            Some(ParentId::Root) => roots += 1,
            Some(other) => panic!("slot {} is tagged {:?}", i, other),
            None => panic!("slot {} is garbage", i),
        }
        for branch in 0..2 {
            if let Some(c) = nodes.child(i, branch).unwrap().index {
                assert_eq!(
                    nodes.parent(c),
                    Some(ParentId::Attached { parent_index: i, this_branch: branch })
                );
            }
        }
    }
    assert_eq!(roots, if tree.read_root().is_some() { 1 } else { 0 });
}

#[test]
fn bad_test() {
    let mut tree = Tree::<i32, 2>::new();
    let mut op = tree.operation();
    op.put_root_elem(0);

    let a = op.write_root().unwrap();
    let b = op.write_root().unwrap();

    println!("{}", a.elem(&mut op));
    println!("{}", b.elem(&mut op));

    *a.elem(&mut op) += 1;

    println!("{}", a.elem(&mut op));
    println!("{}", b.elem(&mut op));
    assert_eq!(*a.elem(&mut op), 1);
    assert_eq!(*b.elem(&mut op), 1);
}

#[test]
fn new_tree_is_empty() {
    let tree = Tree::<i32, 3>::new();
    assert!(tree.read_root().is_none());
    assert!(tree.traverse_read_root().is_none());
    assert_eq!(tree.debug_nodes().len(), 0);
}

#[test]
fn build_and_walk() {
    let tree = small_tree();
    assert_eq!(in_order(&tree), vec![2, 1, 3]);
    let nodes = tree.debug_nodes();
    assert_eq!(nodes.len(), 3);
    assert_eq!(nodes.present_count(), 3);
    assert_eq!(nodes.garbage_count(), 0);
    check_mirror(&tree);
}

#[test]
fn swap_subtrees() {
    let mut tree = small_tree();
    let mut op = tree.operation();
    let root = op.write_root().unwrap();
    let children = root.children();
    let taken = children.take_child(&mut op, 1).unwrap().unwrap();
    let two = children.borrow_child_write(&op, 0).unwrap().unwrap();
    assert_eq!(two.children().put_child_tree(&mut op, 0, taken), Ok(false));
    op.finish_and_gc();

    let root = tree.read_root().unwrap();
    assert_eq!(*root.elem, 1);
    assert!(root.child(1).unwrap().is_none());
    let two = root.child(0).unwrap().unwrap();
    assert_eq!(*two.elem, 2);
    let three = two.child(0).unwrap().unwrap();
    assert_eq!(*three.elem, 3);
    assert!(two.child(1).unwrap().is_none());
    assert!(three.child(0).unwrap().is_none());
    assert!(three.child(1).unwrap().is_none());
    check_mirror(&tree);
}

#[test]
fn root_replacement() {
    let mut tree = small_tree();
    let mut op = tree.operation();
    assert!(op.put_root_elem(42));
    {
        let nodes = op.debug_nodes();
        assert_eq!(nodes.len(), 4);
        assert_eq!(nodes.present_count(), 3);
        assert_eq!(nodes.garbage_count(), 1);
    }
    op.finish_and_gc();
    assert_eq!(tree.debug_nodes().len(), 1);
    assert_eq!(*tree.read_root().unwrap().elem, 42);
    assert_eq!(store_of(&tree), vec![(Some(ParentId::Root), [None, None])]);
}

#[test]
fn gc_convergence() {
    let mut tree = Tree::<i32, 2>::new();
    let mut op = tree.operation();
    op.put_root_elem(0);
    let mut at = op.write_root().unwrap();
    for i in 1..100 {
        let children = at.children();
        let branch = (i % 2) as usize;
        assert_eq!(children.put_child_elem(&mut op, branch, i), Ok(false));
        at = children.borrow_child_write(&op, branch).unwrap().unwrap();
    }
    op.finish_and_gc();
    assert_eq!(tree.debug_nodes().len(), 100);
    assert_eq!(tree.debug_nodes().present_count(), 100);

    let mut op = tree.operation();
    let root = op.take_root().unwrap();
    assert_eq!(root.into_elem(&mut op), 0);
    op.finish_and_gc();
    assert_eq!(tree.debug_nodes().len(), 0);
    assert!(tree.read_root().is_none());
    assert!(tree.traverse_read_root().is_none());

    let mut op = tree.operation();
    assert!(!op.put_root_elem(7));
    op.finish_and_gc();
    assert_eq!(store_of(&tree), vec![(Some(ParentId::Root), [None, None])]);
}

#[test]
fn collection_reaches_every_level_of_a_displaced_subtree() {
    let mut tree = Tree::<i32, 2>::new();
    let mut op = tree.operation();
    op.put_root_elem(0);
    let root = op.write_root().unwrap();
    assert_eq!(root.children().put_child_elem(&mut op, 1, -1), Ok(false));
    assert_eq!(root.children().put_child_elem(&mut op, 0, 1), Ok(false));
    let mut at = vec![root.children().borrow_child_write(&op, 0).unwrap().unwrap()];
    let mut next_elem = 2;
    for _ in 0..5 {
        let mut below = Vec::new();
        for guard in &at {
            for branch in 0..2 {
                assert_eq!(guard.children().put_child_elem(&mut op, branch, next_elem), Ok(false));
                next_elem += 1;
                below.push(guard.children().borrow_child_write(&op, branch).unwrap().unwrap());
            }
        }
        at = below;
    }
    assert_eq!(op.debug_nodes().len(), 65);
    assert_eq!(root.children().put_child_elem(&mut op, 0, 100), Ok(true));
    assert_eq!(op.debug_nodes().garbage_count(), 1);
    op.finish_and_gc();
    assert_eq!(tree.debug_nodes().len(), 3);
    assert_eq!(tree.debug_nodes().garbage_count(), 0);
    assert_eq!(in_order(&tree), vec![100, 0, -1]);
    check_mirror(&tree);
}

#[test]
fn garbage_is_gone_after_collection() {
    let mut tree = small_tree();
    let mut op = tree.operation();
    let root = op.write_root().unwrap();
    let two = root.children().borrow_child_write(&op, 0).unwrap().unwrap();
    assert_eq!(two.children().put_child_elem(&mut op, 0, 4), Ok(false));
    assert_eq!(two.children().put_child_elem(&mut op, 1, 5), Ok(false));
    assert_eq!(root.children().put_child_elem(&mut op, 0, 6), Ok(true));
    assert_eq!(op.debug_nodes().garbage_count(), 1);
    assert_eq!(op.debug_nodes().len(), 6);
    op.finish_and_gc();
    let nodes = tree.debug_nodes();
    assert_eq!(nodes.len(), 3);
    assert_eq!(nodes.garbage_count(), 0);
    assert_eq!(in_order(&tree), vec![6, 1, 3]);
    check_mirror(&tree);
}

#[test]
fn explicit_collection_on_the_tree() {
    let mut tree = small_tree();
    {
        let mut op = tree.operation();
        let root = op.write_root().unwrap();
        assert_eq!(root.children().put_child_elem(&mut op, 1, 9), Ok(true));
    }
    assert_eq!(tree.debug_nodes().garbage_count(), 1);
    tree.garbage_collect();
    tree.shrink_to_fit();
    assert_eq!(tree.debug_nodes().garbage_count(), 0);
    assert_eq!(in_order(&tree), vec![2, 1, 9]);
    check_mirror(&tree);
}

#[test]
fn positions_are_stable_between_collections() {
    let mut tree = small_tree();
    let root_index = tree.read_root().unwrap().index();
    let left_index = tree.read_root().unwrap().child(0).unwrap().unwrap().index();
    let mut op = tree.operation();
    let root = op.write_root().unwrap();
    let right = root.children().take_child(&mut op, 1).unwrap().unwrap();
    let fresh = op.new_detached(8);
    assert_eq!(fresh.children().put_child_tree(&mut op, 0, right), Ok(false));
    assert_eq!(root.children().put_child_tree(&mut op, 1, fresh), Ok(false));
    let at_root = op.traverse_from(root_index).unwrap();
    assert_eq!(*at_root.elem(&mut op), 1);
    let at_left = op.traverse_from(left_index).unwrap();
    assert_eq!(*at_left.elem(&mut op), 2);
    assert_eq!(at_left.this_branch_index(&op), Ok(0));
    op.finish_and_gc();
    assert_eq!(in_order(&tree), vec![2, 1, 3, 8]);
}

#[test]
fn detach_and_reattach_is_identity() {
    let mut tree = small_tree();
    let before = store_of(&tree);
    let mut op = tree.operation();
    let root = op.write_root().unwrap();
    for branch in 0..2 {
        let taken = root.children().take_child(&mut op, branch).unwrap().unwrap();
        assert!(root.children().borrow_child_write(&op, branch).unwrap().is_none());
        assert_eq!(root.children().put_child_tree(&mut op, branch, taken), Ok(false));
    }
    assert_eq!(op.debug_nodes().garbage_count(), 0);
    op.finish_and_gc();
    assert_eq!(store_of(&tree), before);
    assert_eq!(in_order(&tree), vec![2, 1, 3]);
}

#[test]
fn put_child_elem_tells_whether_it_displaced() {
    let mut tree = Tree::<i32, 2>::new();
    let mut op = tree.operation();
    op.put_root_elem(1);
    let root = op.write_root().unwrap();
    assert_eq!(root.children().put_child_elem(&mut op, 0, 2), Ok(false));
    assert_eq!(root.children().put_child_elem(&mut op, 0, 3), Ok(true));
    assert_eq!(root.children().put_child_elem(&mut op, 1, 4), Ok(false));
    op.finish_and_gc();
    assert_eq!(in_order(&tree), vec![3, 1, 4]);
    assert_eq!(tree.debug_nodes().len(), 3);
}

#[test]
fn put_child_tree_tells_whether_it_displaced() {
    let mut tree = small_tree();
    let mut op = tree.operation();
    let root = op.write_root().unwrap();
    let fresh = op.new_detached(7);
    assert_eq!(fresh.children().put_child_elem(&mut op, 1, 8), Ok(false));
    assert_eq!(root.children().put_child_tree(&mut op, 0, fresh), Ok(true));
    op.finish_and_gc();
    assert_eq!(in_order(&tree), vec![7, 8, 1, 3]);
    assert_eq!(tree.debug_nodes().len(), 4);
    check_mirror(&tree);
}

#[test]
fn invalid_branches_are_rejected_and_change_nothing() {
    let mut tree = small_tree();
    let before = store_of(&tree);
    {
        let root = tree.read_root().unwrap();
        assert_eq!(root.child(2).err(), Some(InvalidBranchIndex(2)));
        let at = tree.traverse_read_root().unwrap();
        assert_eq!(at.has_child(2), Err(InvalidBranchIndex(2)));
        assert_eq!(at.child(7).err(), Some(InvalidBranchIndex(7)));
        let mut at = at;
        assert_eq!(at.seek_child(2), Err(InvalidBranchIndex(2)));
        assert_eq!(*at.elem, 1);
    }
    let mut op = tree.operation();
    let root = op.write_root().unwrap();
    let children = root.children();
    assert_eq!(children.borrow_child_write(&op, 2).err(), Some(InvalidBranchIndex(2)));
    assert_eq!(root.children().into_child_write(&op, 3).err(), Some(InvalidBranchIndex(3)));
    assert_eq!(children.take_child(&mut op, 2).err(), Some(InvalidBranchIndex(2)));
    assert_eq!(children.put_child_elem(&mut op, 2, 9), Err(InvalidBranchIndex(2)));
    assert_eq!(children.put_child_elem(&mut op, usize::MAX, 9), Err(InvalidBranchIndex(usize::MAX)));
    let mut at = op.traverse_root().unwrap();
    assert_eq!(at.has_child(&op, 2), Err(InvalidBranchIndex(2)));
    assert_eq!(at.seek_child(&op, 2), Err(InvalidBranchIndex(2)));
    assert_eq!(at.detach_child(&mut op, 2).err(), Some(InvalidBranchIndex(2)));
    assert_eq!(*at.elem(&mut op), 1);
    assert_eq!(op.debug_nodes().len(), 3);
    assert_eq!(op.debug_nodes().garbage_count(), 0);
    op.finish_and_gc();
    assert_eq!(store_of(&tree), before);
}

#[test]
fn put_child_tree_at_an_invalid_branch_changes_nothing() {
    let mut tree = small_tree();
    let mut op = tree.operation();
    let root = op.write_root().unwrap();
    let fresh = op.new_detached(7);
    let fresh_at = (&fresh).into_write_guard();
    assert_eq!(root.children().put_child_tree(&mut op, 2, fresh), Err(InvalidBranchIndex(2)));
    assert_eq!(*fresh_at.elem(&mut op), 7);
    let nodes = op.debug_nodes();
    assert_eq!(nodes.len(), 4);
    assert_eq!(nodes.garbage_count(), 0);
    assert_eq!(nodes.parent(3), Some(ParentId::Detached));
    assert_eq!(nodes.child(0, 0), Some(ChildId { index: Some(1) }));
    assert_eq!(nodes.child(0, 1), Some(ChildId { index: Some(2) }));
    op.finish_and_gc();
    assert_eq!(in_order(&tree), vec![2, 1, 3]);
    assert_eq!(tree.debug_nodes().len(), 3);
}

#[test]
fn a_subtree_that_stays_detached_is_collected() {
    let mut tree = small_tree();
    let mut op = tree.operation();
    let root = op.write_root().unwrap();
    let left = root.children().borrow_child_write(&op, 0).unwrap().unwrap();
    assert_eq!(left.children().put_child_elem(&mut op, 0, 4), Ok(false));
    assert_eq!(left.children().put_child_elem(&mut op, 1, 5), Ok(false));
    let _taken = root.children().take_child(&mut op, 0).unwrap().unwrap();
    let fresh = op.new_detached(6);
    assert_eq!(fresh.children().put_child_elem(&mut op, 0, 7), Ok(false));
    assert_eq!(op.debug_nodes().len(), 7);
    assert_eq!(op.debug_nodes().garbage_count(), 0);
    op.finish_and_gc();
    assert_eq!(in_order(&tree), vec![1, 3]);
    assert_eq!(tree.debug_nodes().len(), 2);
    assert_eq!(tree.debug_nodes().garbage_count(), 0);
    check_mirror(&tree);
}

#[test]
fn a_detached_root_that_stays_detached_leaves_an_empty_tree() {
    let mut tree = small_tree();
    let mut op = tree.operation();
    let _owned = op.take_root().unwrap();
    op.finish_and_gc();
    assert!(tree.read_root().is_none());
    assert_eq!(tree.debug_nodes().len(), 0);
}

#[test]
fn all_children_need_one_entry_per_branch() {
    let mut tree = small_tree();
    let mut op = tree.operation();
    let root = op.write_root().unwrap();
    let _ = root.children().take_child(&mut op, 1).unwrap().unwrap().into_elem(&mut op);
    let mut short: Vec<Option<NodeWriteGuard>> = vec![None];
    assert_eq!(
        root.children().borrow_all_children(&op, &mut short),
        Err(WrongChildrenNum { expected_num: 2, actual_num: 1 })
    );
    assert!(short[0].is_none());
    let mut long: Vec<Option<NodeWriteGuard>> = vec![None, None, None];
    assert_eq!(
        root.children().into_all_children(&op, &mut long),
        Err(WrongChildrenNum { expected_num: 2, actual_num: 3 })
    );
    let mut out: Vec<Option<NodeWriteGuard>> = vec![None, None];
    assert_eq!(root.children().borrow_all_children(&op, &mut out), Ok(()));
    assert_eq!(*out[0].as_ref().unwrap().elem(&mut op), 2);
    assert!(out[1].is_none());
    let mut again: Vec<Option<NodeWriteGuard>> = vec![None, None];
    assert_eq!(root.children().into_all_children(&op, &mut again), Ok(()));
    assert_eq!(*again[0].as_ref().unwrap().elem(&mut op), 2);
    assert!(again[1].is_none());
}

#[test]
fn take_root_and_put_it_back() {
    let mut tree = small_tree();
    let mut op = tree.operation();
    let owned = op.take_root().unwrap();
    assert!(op.read_root().is_none());
    assert!(op.write_root().is_none());
    assert!(op.take_root().is_none());
    assert!(op.traverse_root().is_none());
    *owned.elem(&mut op) = 10;
    assert!(!op.put_root_tree(owned));
    assert_eq!(op.debug_nodes().parent(0), Some(ParentId::Root));
    op.finish_and_gc();
    assert_eq!(in_order(&tree), vec![2, 10, 3]);
    assert_eq!(tree.debug_nodes().len(), 3);
}

#[test]
fn put_root_tree_displaces_the_root() {
    let mut tree = small_tree();
    let mut op = tree.operation();
    let fresh = op.new_detached(5);
    let (elem, children) = fresh.split(&mut op);
    *elem += 1;
    assert_eq!(children.put_child_elem(&mut op, 1, 9), Ok(false));
    assert!(op.put_root_tree(fresh));
    op.finish_and_gc();
    assert_eq!(in_order(&tree), vec![6, 9]);
    assert_eq!(tree.debug_nodes().len(), 2);
    check_mirror(&tree);
}

#[test]
fn detach_clears_the_owner() {
    let mut tree = small_tree();
    let mut op = tree.operation();
    let root = op.write_root().unwrap();
    let left = root.children().borrow_child_write(&op, 0).unwrap().unwrap();
    let owned = left.detach(&mut op);
    assert!(root.children().borrow_child_write(&op, 0).unwrap().is_none());
    assert_eq!(owned.into_elem(&mut op), 2);
    let owned_root = op.write_root().unwrap().detach(&mut op);
    assert!(op.read_root().is_none());
    assert!(!op.put_root_tree(owned_root));
    op.finish_and_gc();
    assert_eq!(in_order(&tree), vec![1, 3]);
    assert_eq!(tree.debug_nodes().len(), 2);
}

#[test]
fn split_gives_element_and_children() {
    let mut tree = small_tree();
    let mut op = tree.operation();
    let root = op.write_root().unwrap();
    let (elem, children) = root.borrow_split(&mut op);
    *elem = 100;
    let left = children.into_child_write(&op, 0).unwrap().unwrap();
    let (elem, children) = left.into_split(&mut op);
    *elem *= 2;
    assert_eq!(children.put_child_elem(&mut op, 1, 5), Ok(false));
    op.finish_and_gc();
    assert_eq!(in_order(&tree), vec![4, 5, 100, 3]);
}

#[test]
fn write_traverser_moves_up_and_down() {
    let mut tree = small_tree();
    let mut op = tree.operation();
    let mut at = op.traverse_root().unwrap();
    assert_eq!(at.above_me(&op), AboveMe::Root);
    assert_eq!(at.seek_parent(&op), Err(NoParent::Root));
    assert_eq!(at.this_branch_index(&op), Err(NoParent::Root));
    assert_eq!(at.has_child(&op, 1), Ok(true));
    assert_eq!(at.seek_child(&op, 1), Ok(Ok(())));
    assert_eq!(*at.elem(&mut op), 3);
    assert_eq!(at.above_me(&op), AboveMe::Parent);
    assert_eq!(at.this_branch_index(&op), Ok(1));
    assert_eq!(at.has_child(&op, 0), Ok(false));
    assert_eq!(at.seek_child(&op, 0), Ok(Err(ChildNotFound(0))));
    assert_eq!(*at.elem(&mut op), 3);
    assert_eq!(at.detach_child(&mut op, 0).err(), None);
    assert_eq!(at.seek_parent(&op), Ok(()));
    assert_eq!(*at.elem(&mut op), 1);
    *at.elem(&mut op) = 11;
    let left = at.detach_child(&mut op, 0).unwrap().unwrap();
    assert_eq!(at.has_child(&op, 0), Ok(false));
    let left_at = op.traverse_from(NodeIndex { index: 1 }).unwrap();
    assert_eq!(left_at.above_me(&op), AboveMe::Detached);
    let mut left_at = left_at;
    assert_eq!(left_at.seek_parent(&op), Err(NoParent::Detached));
    assert_eq!(left_at.this_branch_index(&op), Err(NoParent::Detached));
    assert_eq!(at.seek_child(&op, 1), Ok(Ok(())));
    let right = at.into_write_guard();
    assert_eq!(right.children().put_child_tree(&mut op, 0, left), Ok(false));
    op.finish_and_gc();
    assert_eq!(in_order(&tree), vec![11, 2, 3]);
    check_mirror(&tree);
}

#[test]
fn detach_child_of_an_empty_branch_is_child_not_found() {
    let mut tree = small_tree();
    let mut op = tree.operation();
    let mut at = op.traverse_root().unwrap();
    assert_eq!(at.seek_child(&op, 0), Ok(Ok(())));
    assert_eq!(at.detach_child(&mut op, 1).unwrap().err(), Some(ChildNotFound(1)));
    assert_eq!(op.debug_nodes().garbage_count(), 0);
    assert_eq!(op.debug_nodes().parent(1), Some(ParentId::Attached { parent_index: 0, this_branch: 0 }));
}

#[test]
fn detach_this_takes_the_subtree() {
    let mut tree = small_tree();
    let mut op = tree.operation();
    let mut at = op.traverse_root().unwrap();
    assert_eq!(at.seek_child(&op, 0), Ok(Ok(())));
    let owned = at.detach_this(&mut op);
    assert_eq!(owned.into_elem(&mut op), 2);
    assert!(op.traverse_from(NodeIndex { index: 1 }).is_none());
    assert!(op.traverse_from(NodeIndex { index: 9 }).is_none());
    op.finish_and_gc();
    assert_eq!(in_order(&tree), vec![1, 3]);
}

#[test]
fn read_traverser_moves_up_and_down() {
    let tree = small_tree();
    let mut at = tree.traverse_read_root().unwrap();
    assert_eq!(at.above_me(), AboveMe::Root);
    assert_eq!(at.parent().err(), Some(NoParent::Root));
    assert_eq!(at.seek_parent(), Err(NoParent::Root));
    assert_eq!(at.this_branch_index(), Err(NoParent::Root));
    assert_eq!(at.has_child(0), Ok(true));
    let left = at.child(0).unwrap().unwrap();
    assert_eq!(*left.elem, 2);
    assert_eq!(left.has_child(0), Ok(false));
    assert_eq!(left.child(0).unwrap().err(), Some(ChildNotFound(0)));
    assert_eq!(at.seek_child(1), Ok(Ok(())));
    assert_eq!(*at.elem, 3);
    assert_eq!(at.above_me(), AboveMe::Parent);
    assert_eq!(at.this_branch_index(), Ok(1));
    assert_eq!(at.seek_child(1), Ok(Err(ChildNotFound(1))));
    assert_eq!(*at.elem, 3);
    assert_eq!(*at.parent().unwrap().elem, 1);
    assert_eq!(at.seek_parent(), Ok(()));
    assert_eq!(*at.elem, 1);
    let guard = (&at).into_read_guard(&tree);
    assert_eq!(*guard.elem, 1);
    assert_eq!(guard.index(), NodeIndex { index: 0 });
}

#[test]
fn guards_turn_into_read_guards() {
    let mut tree = small_tree();
    let op = tree.operation();
    let root = op.write_root().unwrap();
    let left = root.children().borrow_child_write(&op, 0).unwrap().unwrap();
    assert_eq!(*(&left).into_read_guard(&*op.tree).elem, 2);
    let at = op.traverse_root().unwrap();
    assert_eq!(*(&at).into_read_guard(&*op.tree).elem, 1);
    let as_write = (&at).into_write_guard();
    assert_eq!(*as_write.into_read_guard(&*op.tree).elem, 1);
    let read = at.into_read_guard(&*op.tree);
    assert_eq!(*read.into_read_guard(&*op.tree).elem, 1);
    assert_eq!(*left.into_write_guard().into_read_guard(&*op.tree).elem, 2);
}

#[test]
fn read_guards_dereference_to_the_element() {
    let tree = small_tree();
    let root = tree.read_root().unwrap();
    let copy = root;
    assert_eq!(*root, 1);
    assert_eq!(*copy, 1);
    assert_eq!(*root.child(1).unwrap().unwrap(), 3);
    let at = tree.traverse_read_root().unwrap();
    let other = at;
    assert_eq!(*at, 1);
    assert_eq!(*other.child(0).unwrap().unwrap(), 2);
    assert_eq!(root.abs(), 1);
}

#[test]
fn higher_branch_factor() {
    let mut tree = Tree::<&'static str, 4>::new();
    let mut op = tree.operation();
    op.put_root_elem("root");
    let root = op.write_root().unwrap();
    assert_eq!(root.children().put_child_elem(&mut op, 3, "d"), Ok(false));
    assert_eq!(root.children().put_child_elem(&mut op, 0, "a"), Ok(false));
    assert_eq!(root.children().put_child_elem(&mut op, 4, "e"), Err(InvalidBranchIndex(4)));
    op.finish_and_gc();
    let root = tree.read_root().unwrap();
    assert_eq!(*root.child(0).unwrap().unwrap().elem, "a");
    assert!(root.child(1).unwrap().is_none());
    assert!(root.child(2).unwrap().is_none());
    assert_eq!(*root.child(3).unwrap().unwrap().elem, "d");
    assert_eq!(root.child(4).err(), Some(InvalidBranchIndex(4)));
}
