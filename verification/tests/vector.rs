use containers::Vector;

fn drained(v: &mut Vector<i32>) -> Vec<i32> {
    let mut out = Vec::new();
    let mut drain = v.drain();
    while let Some(value) = drain.next() {
        out.push(value);
    }
    out
}

#[test]
fn test_basics() {
    let mut v = Vector::<i32>::new();

    v.push(1);
    v.push(2);
    v.push(3);
    assert_eq!(v.len(), 3);

    assert_eq!(v.pop(), Some(3));
    assert_eq!(v.len(), 2);
}

#[test]
fn pop_on_empty_vector() {
    let mut v = Vector::<i32>::new();
    assert_eq!(v.len(), 0);
    assert_eq!(v.pop(), None);
    v.push(7);
    assert_eq!(v.pop(), Some(7));
    assert_eq!(v.pop(), None);
    assert_eq!(v.len(), 0);
}

#[test]
fn insert_moves_the_tail_up() {
    let mut v = Vector::<i32>::new();
    v.insert(0, 3);
    v.insert(0, 1);
    v.insert(1, 2);
    v.insert(3, 4);
    assert_eq!(v.len(), 4);
    assert_eq!(drained(&mut v), vec![1, 2, 3, 4]);
    assert_eq!(v.len(), 0);
}

#[test]
fn remove_moves_the_tail_down() {
    let mut v = Vector::<i32>::new();
    for i in 0..6 {
        v.push(i * 10);
    }
    assert_eq!(v.remove(2), 20);
    assert_eq!(v.len(), 5);
    assert_eq!(v.remove(0), 0);
    assert_eq!(v.remove(3), 50);
    assert_eq!(v.len(), 3);
    assert_eq!(drained(&mut v), vec![10, 30, 40]);
}

#[test]
fn growth_keeps_the_elements() {
    let mut v = Vector::<i32>::new();
    for i in 0..100 {
        v.push(i);
    }
    assert_eq!(v.len(), 100);
    for i in (0..100).rev() {
        assert_eq!(v.pop(), Some(i));
    }
    assert_eq!(v.pop(), None);
}

#[test]
fn drain_from_both_ends() {
    let mut v = Vector::<i32>::new();
    for i in 1..=5 {
        v.push(i);
    }
    let mut drain = v.drain();
    assert_eq!(drain.size_hint(), (5, Some(5)));
    assert_eq!(drain.next(), Some(1));
    assert_eq!(drain.next_back(), Some(5));
    assert_eq!(drain.next_back(), Some(4));
    assert_eq!(drain.size_hint(), (2, Some(2)));
    assert_eq!(drain.next(), Some(2));
    assert_eq!(drain.next(), Some(3));
    assert_eq!(drain.next(), None);
    assert_eq!(drain.next_back(), None);
    assert_eq!(v.len(), 0);
    v.push(9);
    assert_eq!(v.pop(), Some(9));
}

#[test]
fn into_iter_takes_the_elements_in_order() {
    let mut v = Vector::<String>::new();
    v.push("a".to_string());
    v.push("b".to_string());
    v.push("c".to_string());
    let mut iter = v.into_iter();
    assert_eq!(iter.size_hint(), (3, Some(3)));
    assert_eq!(iter.next_back(), Some("c".to_string()));
    assert_eq!(iter.next(), Some("a".to_string()));
    assert_eq!(iter.next(), Some("b".to_string()));
    assert_eq!(iter.next(), None);
    assert_eq!(iter.size_hint(), (0, Some(0)));
}
