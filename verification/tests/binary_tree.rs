use containers::BTree;

fn tree_values() -> Vec<i32> {
    vec![40, 20, 60, 10, 30, 25, 35, 50, 45, 70, 80, 75]
}

fn in_order(tree: &BTree<i32>) -> Vec<i32> {
    let mut out = Vec::new();
    let mut iter = tree.iter();
    while let Some(value) = iter.next() {
        out.push(*value);
    }
    out
}

#[test]
fn test_insert() {
    let numbers = tree_values();

    let mut tree = BTree::new();

    tree.insert(numbers[0]);
    assert!(tree.contains(&numbers[0]));

    tree.insert(numbers[1]);
    assert!(tree.contains(&numbers[1]));

    tree.insert(numbers[2]);
    assert!(tree.contains(&numbers[2]));

    assert_eq!(tree.size(), 3);

    for n in &numbers[3..] {
        tree.insert(*n);
    }

    for n in &numbers {
        assert!(tree.contains(n));
    }

    assert_eq!(tree.size(), numbers.len());
}

#[test]
fn test_remove() {
    let numbers = tree_values();

    let mut tree = BTree::new();

    for n in &numbers {
        tree.insert(*n);
    }

    // Node with no children
    tree.remove(&75);
    assert!(!tree.contains(&75));

    // Node with one child to the right
    tree.remove(&70);
    assert!(!tree.contains(&70));
    assert!(tree.contains(&80));

    // Node with one child to the left
    tree.remove(&50);
    assert!(!tree.contains(&50));
    assert!(tree.contains(&45));

    // Node with two children
    tree.remove(&20);
    assert!(!tree.contains(&20));
    assert!(tree.contains(&10));
    assert!(tree.contains(&30));

    // Root
    tree.remove(&40);
    assert!(!tree.contains(&40));

    // Check remaining values
    assert!(tree.contains(&80));
    assert!(tree.contains(&60));
    assert!(tree.contains(&35));
    assert!(tree.contains(&45));
    assert!(tree.contains(&25));
    assert!(tree.contains(&30));
    assert!(tree.contains(&10));
}

#[test]
fn test_iter() {
    let mut values = tree_values();

    let mut tree = BTree::new();

    for value in values.iter() {
        tree.insert(*value);
    }

    let mut iter = tree.iter();

    values.sort();

    for value in values.iter() {
        let tree_value = iter.next();
        assert!(tree_value.is_some());
        assert_eq!(value, tree_value.unwrap());
    }

    assert!(iter.next().is_none());
}

#[test]
fn tree_starts_empty() {
    let tree: BTree<i32> = BTree::new();
    assert!(tree.is_empty());
    assert_eq!(tree.size(), 0);
    assert!(!tree.contains(&1));
    let mut iter = tree.iter();
    assert_eq!(iter.size_hint(), (0, Some(0)));
    assert!(iter.next().is_none());
}

#[test]
fn inserting_twice_changes_nothing() {
    let mut tree = BTree::new();
    tree.insert(5);
    tree.insert(3);
    tree.insert(5);
    tree.insert(3);
    assert_eq!(tree.size(), 2);
    assert!(!tree.is_empty());
    assert_eq!(in_order(&tree), vec![3, 5]);
}

#[test]
fn removing_what_is_not_there_changes_nothing() {
    let mut tree = BTree::new();
    for n in tree_values() {
        tree.insert(n);
    }
    tree.remove(&41);
    tree.remove(&0);
    tree.remove(&100);
    assert_eq!(tree.size(), 12);
    assert_eq!(in_order(&tree), vec![10, 20, 25, 30, 35, 40, 45, 50, 60, 70, 75, 80]);
}

#[test]
fn removal_keeps_the_order_and_the_size() {
    let mut tree = BTree::new();
    for n in tree_values() {
        tree.insert(n);
    }
    tree.remove(&20);
    assert_eq!(tree.size(), 11);
    assert_eq!(in_order(&tree), vec![10, 25, 30, 35, 40, 45, 50, 60, 70, 75, 80]);
    tree.remove(&40);
    assert_eq!(tree.size(), 10);
    assert_eq!(in_order(&tree), vec![10, 25, 30, 35, 45, 50, 60, 70, 75, 80]);
    tree.remove(&60);
    tree.remove(&10);
    tree.remove(&80);
    assert_eq!(in_order(&tree), vec![25, 30, 35, 45, 50, 70, 75]);
    let mut iter = tree.iter();
    assert_eq!(iter.size_hint(), (7, Some(7)));
    assert_eq!(iter.next(), Some(&25));
    assert_eq!(iter.size_hint(), (6, Some(6)));
    for n in [25, 30, 35, 45, 50, 70, 75] {
        tree.remove(&n);
    }
    assert!(tree.is_empty());
    assert_eq!(in_order(&tree), Vec::<i32>::new());
}
