use bstree::tree::Tree;

#[test]
fn test_contains() {
    let mut tree: Tree = Tree::new();
    tree.insert(String::from("C"));
    tree.insert(String::from("B"));
    tree.insert(String::from("D"));
    assert!(!tree.contains(&String::from("A")));
    assert!(tree.contains(&String::from("B")));
    assert!(tree.contains(&String::from("C")));
    assert!(tree.contains(&String::from("D")));
    assert!(!tree.contains(&String::from("E")));
}

#[test]
fn remove_node_with_two_children() {
    let mut tree: Tree = Tree::new();
    tree.insert(String::from("B"));
    tree.insert(String::from("A"));
    tree.insert(String::from("C"));
    println!("Tree: {:?}", tree);
    let old_size = tree.size();
    assert_eq!(Some(String::from("B")), tree.delete(&String::from("B")));
    assert_eq!(old_size - 1, tree.size());
    println!("Tree: after delete {:?}", tree);
}

#[test]
fn remove_unknown_node() {
    let mut tree: Tree = Tree::new();
    tree.insert(String::from("B"));
    tree.insert(String::from("A"));
    tree.insert(String::from("C"));
    println!("Tree: {:?}", tree);
    let old_size = tree.size();
    assert_eq!(None, tree.delete(&String::from("D")));
    assert_eq!(old_size, tree.size());
    println!("Tree: after delete {:?}", tree);
}

#[test]
fn remove_from_empty_tree() {
    let mut tree: Tree = Tree::new();
    println!("Tree: {:?}", tree);
    assert_eq!(0, tree.size());
    assert_eq!(None, tree.delete(&String::from("D")));
    assert_eq!(0, tree.size());
    println!("Tree: after delete {:?}", tree);
}

#[test]
fn iterate() {
    let mut tree: Tree = Tree::new();
    tree.insert(String::from("D"));
    tree.insert(String::from("A"));
    tree.insert(String::from("B"));
    tree.insert(String::from("C"));
    tree.insert(String::from("F"));
    tree.insert(String::from("E"));
    tree.insert(String::from("G"));
    let mut s = String::new();
    let mut it = tree.iter();
    while let Some(c) = it.next() {
        s.push_str(c);
    }
    assert_eq!("ABCDEFG", s);
}

#[test]
fn delete_root_keeps_other_values() {
    let mut tree: Tree = Tree::new();
    tree.insert(String::from("B"));
    tree.insert(String::from("A"));
    tree.insert(String::from("C"));
    assert_eq!(3, tree.size());
    assert_eq!(Some(String::from("B")), tree.delete(&String::from("B")));
    assert_eq!(2, tree.size());
    assert!(!tree.contains(&String::from("B")));
    assert!(tree.contains(&String::from("A")));
    assert!(tree.contains(&String::from("C")));
}

#[test]
fn insert_duplicate_keeps_size() {
    let mut tree: Tree = Tree::new();
    tree.insert(String::from("M"));
    tree.insert(String::from("Q"));
    assert_eq!(2, tree.size());
    tree.insert(String::from("M"));
    assert_eq!(2, tree.size());
    assert!(tree.contains(&String::from("M")));
}

#[test]
fn insert_new_value_grows_size() {
    let mut tree: Tree = Tree::new();
    assert_eq!(0, tree.size());
    tree.insert(String::from("M"));
    assert_eq!(1, tree.size());
    tree.insert(String::from("F"));
    assert_eq!(2, tree.size());
    tree.insert(String::from("T"));
    assert_eq!(3, tree.size());
}

#[test]
fn redelete_returns_none() {
    let mut tree: Tree = Tree::new();
    tree.insert(String::from("B"));
    tree.insert(String::from("A"));
    assert_eq!(Some(String::from("A")), tree.delete(&String::from("A")));
    assert_eq!(None, tree.delete(&String::from("A")));
    assert_eq!(1, tree.size());
}

#[test]
fn delete_node_with_left_child_only() {
    let mut tree: Tree = Tree::new();
    tree.insert(String::from("C"));
    tree.insert(String::from("B"));
    tree.insert(String::from("A"));
    assert_eq!(Some(String::from("B")), tree.delete(&String::from("B")));
    assert_eq!(2, tree.size());
    assert!(tree.contains(&String::from("A")));
    assert!(!tree.contains(&String::from("B")));
    assert!(tree.contains(&String::from("C")));
}

#[test]
fn delete_node_with_right_child_only() {
    let mut tree: Tree = Tree::new();
    tree.insert(String::from("A"));
    tree.insert(String::from("B"));
    tree.insert(String::from("C"));
    assert_eq!(Some(String::from("B")), tree.delete(&String::from("B")));
    assert_eq!(2, tree.size());
    assert!(tree.contains(&String::from("A")));
    assert!(!tree.contains(&String::from("B")));
    assert!(tree.contains(&String::from("C")));
}

#[test]
fn delete_when_successor_has_right_child() {
    let mut tree: Tree = Tree::new();
    tree.insert(String::from("D"));
    tree.insert(String::from("B"));
    tree.insert(String::from("F"));
    tree.insert(String::from("E"));
    tree.insert(String::from("G"));
    tree.insert(String::from("EX"));
    assert_eq!(Some(String::from("D")), tree.delete(&String::from("D")));
    assert_eq!(5, tree.size());
    let mut s = String::new();
    let mut it = tree.iter();
    while let Some(c) = it.next() {
        s.push_str(c);
    }
    assert_eq!("BEEXFG", s);
}

#[test]
fn iterate_empty_tree() {
    let tree: Tree = Tree::new();
    let mut it = tree.iter();
    assert_eq!(None, it.next());
    assert_eq!(None, it.next());
}

#[test]
fn iterate_after_deletes() {
    let mut tree: Tree = Tree::new();
    tree.insert(String::from("E"));
    tree.insert(String::from("A"));
    tree.insert(String::from("C"));
    tree.insert(String::from("B"));
    tree.insert(String::from("D"));
    assert_eq!(Some(String::from("C")), tree.delete(&String::from("C")));
    assert_eq!(Some(String::from("A")), tree.delete(&String::from("A")));
    let mut s = String::new();
    let mut it = tree.iter();
    while let Some(c) = it.next() {
        s.push_str(c);
    }
    assert_eq!("BDE", s);
}

#[test]
fn iterate_sorted_insertion() {
    let mut tree: Tree = Tree::new();
    tree.insert(String::from("A"));
    tree.insert(String::from("B"));
    tree.insert(String::from("C"));
    tree.insert(String::from("D"));
    tree.insert(String::from("E"));
    let mut s = String::new();
    let mut it = tree.iter();
    while let Some(c) = it.next() {
        s.push_str(c);
    }
    assert_eq!("ABCDE", s);
}
