use stable_tree::object_tree::Error;
use stable_tree::object_tree::Tree;

#[test]
fn object_tree_new_tree() {
    let mut tree = Tree::<()>::new();
    assert_eq!(tree.len(), 0);
    assert_eq!(tree.roots().len(), 0);
}

#[test]
fn object_tree_tree_roots() {
    let mut tree = Tree::new();
    tree.add_root(true);
    tree.add_root(false);

    assert_eq!(tree.len(), 2);
    let handles = tree.roots();
    assert_eq!(handles.len(), 2);
    for h in handles {
        tree.release(h.unwrap());
    }
}

#[test]
fn object_tree_tree_nodes() {
    let mut tree = Tree::new();
    tree.add_root(true);

    {
        let mut handles = tree.roots_mut();
        let root = handles.remove(0).unwrap();
        tree.add_child(true, root.key()).unwrap();
        tree.add_child(false, root.key()).unwrap();
        tree.release_mut(root);
    }

    assert_eq!(tree.len(), 3);

    let roots: Vec<_> = tree
        .roots()
        .into_iter()
        .collect::<Result<Vec<_>, _>>()
        .unwrap();

    assert_eq!(roots.len(), 1);
    assert_eq!(*tree.node_value(roots[0].key()).unwrap(), true);

    let children = tree.child_keys_of(roots[0].key());

    assert_eq!(children.len(), 2);
    for r in roots {
        tree.release(r);
    }
}

#[test]
fn test_promote() {
    let mut tree = Tree::new();
    let id = tree.add_root(true);

    {
        let root = tree.try_get(id).unwrap();

        let root = tree.try_promote(root).expect("Could promote unique reference");

        tree.add_child(false, id).unwrap();
        tree.release_mut(root);
    }

    {
        let root1 = tree.try_get(id).unwrap();
        let root2 = tree.try_get(id).unwrap();

        let res = tree.try_promote(root1);
        assert!(res.is_err(), "Couldn't promote non-unique reference");
        assert_eq!(res.unwrap_err(), Error::CantBorrow);
        tree.release(root2);
    }
}

#[test]
fn test_demote() {
    let mut tree = Tree::new();
    let id = tree.add_root(true);

    {
        let root = tree.try_get_mut(id).unwrap();

        tree.add_child(false, id).unwrap();

        let root = tree.demote(root);
        assert_eq!(*tree.node_value(root.key()).unwrap(), true);
        tree.release(root);
    }
}

#[test]
fn tree_single_root() {
    let mut tree = Tree::new();
    tree.add_root(5);
    assert_eq!(tree.len(), 1);
    assert_eq!(tree.root_keys().len(), 1);
}

#[test]
fn tree_two_children_resolve() {
    let mut tree = Tree::new();
    let root = tree.add_root(0);
    tree.add_child(1, root).unwrap();
    tree.add_child(2, root).unwrap();

    assert_eq!(tree.len(), 3);
    let children = tree.child_keys_of(root);
    assert_eq!(children.len(), 2);

    let mut values = Vec::new();
    for c in children {
        let handle = tree.try_get(c).unwrap();
        values.push(*tree.node_value(handle.key()).unwrap());
        tree.release(handle);
    }
    values.sort();
    assert_eq!(values, vec![1, 2]);
}

#[test]
fn tree_remove_recursive_clears_subtree() {
    let mut tree = Tree::new();
    let root = tree.add_root(0);
    let a = tree.add_child(1, root).unwrap();
    let b = tree.add_child(2, root).unwrap();
    tree.add_child(3, a).unwrap();
    tree.add_child(4, b).unwrap();
    assert_eq!(tree.len(), 5);

    assert_eq!(tree.remove_recursive(root), Ok(()));
    assert_eq!(tree.len(), 0);
    assert_eq!(tree.unordered_keys().len(), 0);
    assert_eq!(tree.root_keys().len(), 0);
}

#[test]
fn tree_remove_recursive_detaches_from_parent() {
    let mut tree = Tree::new();
    let root = tree.add_root(0);
    let mid = tree.add_child(1, root).unwrap();
    tree.add_child(2, mid).unwrap();

    assert_eq!(tree.remove_recursive(mid), Ok(()));
    assert_eq!(tree.len(), 1);
    assert_eq!(tree.child_keys_of(root).len(), 0);
    assert_eq!(tree.parent_key_of(mid), None);
}

#[test]
fn tree_remove_recursive_borrowed_descendant_fails_atomically() {
    // the chosen policy: if any node of the subtree is borrowed, the whole
    // removal fails and the tree is left unmodified
    let mut tree = Tree::new();
    let root = tree.add_root(0);
    let child = tree.add_child(1, root).unwrap();

    let handle = tree.try_get(child).unwrap();
    assert_eq!(tree.remove_recursive(root), Err(Error::CantBorrow));
    assert_eq!(tree.len(), 2);
    assert_eq!(tree.child_keys_of(root).len(), 1);
    assert_eq!(*tree.node_value(root).unwrap(), 0);

    tree.release(handle);
    assert_eq!(tree.remove_recursive(root), Ok(()));
    assert_eq!(tree.len(), 0);
}

#[test]
fn tree_set_child_round_trip() {
    let mut tree = Tree::new();
    let p = tree.add_root(10);
    let c = tree.add_root(20);
    assert_eq!(tree.root_keys().len(), 2);

    assert_eq!(tree.set_child(p, c), Ok(()));
    assert_eq!(tree.parent_key_of(c), Some(p));
    let children = tree.child_keys_of(p);
    assert_eq!(children.iter().filter(|k| **k == c).count(), 1);
    assert_eq!(tree.root_keys().len(), 1);

    // idempotence: reparenting to the current parent loses nothing and
    // leaves no duplicate entry
    assert_eq!(tree.set_child(p, c), Ok(()));
    assert_eq!(tree.parent_key_of(c), Some(p));
    let children = tree.child_keys_of(p);
    assert_eq!(children.iter().filter(|k| **k == c).count(), 1);
    assert_eq!(children.len(), 1);
}

#[test]
fn tree_remove_child_makes_root() {
    let mut tree = Tree::new();
    let p = tree.add_root(1);
    let c = tree.add_child(2, p).unwrap();
    assert_eq!(tree.root_keys().len(), 1);

    assert_eq!(tree.remove_child(p, c), Ok(()));
    assert_eq!(tree.parent_key_of(c), None);
    assert_eq!(tree.child_keys_of(p).len(), 0);
    assert_eq!(tree.root_keys().len(), 2);
    assert_eq!(tree.len(), 2);
}

#[test]
fn tree_missing_errors() {
    let mut tree = Tree::new();
    let root = tree.add_root(1);
    let gone = tree.add_child(2, root).unwrap();
    assert_eq!(tree.remove_recursive(gone), Ok(()));

    assert_eq!(tree.try_get(gone).unwrap_err(), Error::Missing);
    assert_eq!(tree.try_get_mut(gone).unwrap_err(), Error::Missing);
    assert_eq!(tree.add_child(3, gone).unwrap_err(), Error::Missing);
    assert_eq!(tree.set_child(root, gone), Err(Error::Missing));
    assert_eq!(tree.set_child(gone, root), Err(Error::Missing));
    assert_eq!(tree.remove_child(root, gone), Err(Error::Missing));
    assert_eq!(tree.remove_recursive(gone), Err(Error::Missing));
    assert!(tree.node_value(gone).is_none());
    assert_eq!(tree.parent_key_of(gone), None);
    assert_eq!(tree.child_keys_of(gone).len(), 0);

    // detaching a node from something that is not its parent is refused
    let other = tree.add_root(4);
    assert_eq!(tree.remove_child(other, root), Err(Error::Missing));
}

#[test]
fn tree_cant_borrow_errors() {
    let mut tree = Tree::new();
    let id = tree.add_root(1);

    let m = tree.try_get_mut(id).unwrap();
    assert_eq!(tree.try_get(id).unwrap_err(), Error::CantBorrow);
    assert_eq!(tree.try_get_mut(id).unwrap_err(), Error::CantBorrow);
    tree.release_mut(m);

    let s = tree.try_get(id).unwrap();
    assert_eq!(tree.try_get_mut(id).unwrap_err(), Error::CantBorrow);
    let s2 = tree.try_get(id).unwrap();
    tree.release(s);
    tree.release(s2);
}

#[test]
fn tree_promote_mutation_visible() {
    let mut tree = Tree::new();
    let id = tree.add_root(100);

    let shared = tree.try_get(id).unwrap();
    let excl = tree.try_promote(shared).unwrap();
    assert!(tree.set_node_value(&excl, 200));
    tree.release_mut(excl);

    let again = tree.try_get(id).unwrap();
    assert_eq!(*tree.node_value(again.key()).unwrap(), 200);
    tree.release(again);
}

#[test]
fn tree_error_messages() {
    assert_eq!(Error::Missing.message(), "tree missing expected node");
    assert_eq!(
        Error::CantBorrow.message(),
        "tree node is already borrowed incompatibly"
    );
}

#[test]
fn tree_keys_are_fresh_and_stale_keys_stay_dead() {
    let mut tree = Tree::new();
    let a = tree.add_root(1);
    let b = tree.add_root(2);
    assert_ne!(a, b);

    // delete one node, then insert another: the stale key must not come
    // back to life, even if the allocator reuses the slot
    assert_eq!(tree.remove_recursive(a), Ok(()));
    let c = tree.add_root(3);
    assert_ne!(a, c);
    assert_eq!(tree.try_get(a).unwrap_err(), Error::Missing);
    assert!(tree.node_value(a).is_none());
    assert_eq!(*tree.node_value(b).unwrap(), 2);
    assert_eq!(*tree.node_value(c).unwrap(), 3);
}

#[test]
fn tree_promote_unique_receipt() {
    let mut tree = Tree::new();
    let id = tree.add_root(7);
    let s = tree.try_get(id).unwrap();
    let m = tree.promote(s);
    assert!(tree.set_node_value(&m, 8));
    tree.release_mut(m);
    assert_eq!(*tree.node_value(id).unwrap(), 8);
}

#[test]
fn tree_node_value_refused_while_exclusively_borrowed() {
    let mut tree = Tree::new();
    let id = tree.add_root(1);
    let m = tree.try_get_mut(id).unwrap();
    // reading is a shared access, so it is refused like any other
    assert!(tree.node_value(id).is_none());
    tree.release_mut(m);
    assert_eq!(*tree.node_value(id).unwrap(), 1);
}
