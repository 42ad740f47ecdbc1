use containers::LinkedList;

#[test]
fn basics() {
    let mut list = LinkedList::new();

    // Check empty list behaves correctly
    assert_eq!(list.size(), 0);
    assert_eq!(list.pop(), None);

    // Add elements to list
    list.add(1);
    list.add(2);
    list.add(3);
    assert_eq!(list.size(), 3);

    // Check pop
    assert_eq!(list.pop(), Some(1));
    assert_eq!(list.pop(), Some(2));
    assert_eq!(list.size(), 1);

    // Check remove
    list.add(4);
    list.add(5);
    list.add(6);
    list.add(7);
    assert_eq!(list.size(), 5);
    assert_eq!(list.remove(5), Some(5));
    assert_eq!(list.size(), 4);
    assert_eq!(list.remove(5), None);
}

#[test]
fn remove_takes_the_first_match_only() {
    let mut list = LinkedList::new();
    for v in [3, 1, 3, 2, 3] {
        list.add(v);
    }
    assert_eq!(list.remove(3), Some(3));
    assert_eq!(list.size(), 4);
    assert_eq!(list.pop(), Some(1));
    assert_eq!(list.pop(), Some(3));
    assert_eq!(list.pop(), Some(2));
    assert_eq!(list.pop(), Some(3));
    assert_eq!(list.pop(), None);
    assert_eq!(list.size(), 0);
}

#[test]
fn remove_the_last_then_add() {
    let mut list = LinkedList::new();
    list.add(1);
    list.add(2);
    assert_eq!(list.remove(2), Some(2));
    list.add(3);
    assert_eq!(list.remove(1), Some(1));
    assert_eq!(list.remove(3), Some(3));
    assert_eq!(list.size(), 0);
    list.add(4);
    assert_eq!(list.pop(), Some(4));
    assert_eq!(list.pop(), None);
}

#[test]
fn a_long_list_keeps_its_order() {
    let mut list = LinkedList::new();
    for i in 0..2000u32 {
        list.add(i);
    }
    assert_eq!(list.size(), 2000);
    assert_eq!(list.remove(1999), Some(1999));
    assert_eq!(list.remove(1000), Some(1000));
    assert_eq!(list.remove(2000), None);
    assert_eq!(list.size(), 1998);
    for i in 0..1999u32 {
        if i != 1000 {
            assert_eq!(list.pop(), Some(i));
        }
    }
    assert_eq!(list.pop(), None);
}
