use containers::DequeueList;

fn to_vec<T: Clone>(list: &DequeueList<T>) -> Vec<T> {
    let mut out = Vec::new();
    let mut it = list.iter();
    while let Some(elem) = it.next() {
        out.push(elem.clone());
    }
    out
}

fn drain<T>(list: DequeueList<T>) -> Vec<T> {
    let mut out = Vec::new();
    let mut it = list.into_iter();
    while let Some(elem) = it.next() {
        out.push(elem);
    }
    out
}

fn check_links<T: Eq + std::fmt::Debug>(list: &DequeueList<T>) {
    let mut from_front: Vec<&T> = Vec::new();
    let mut it = list.iter();
    while let Some(elem) = it.next() {
        from_front.push(elem);
    }
    let mut from_back: Vec<&T> = Vec::new();
    let mut it = list.iter();
    while let Some(elem) = it.next_back() {
        from_back.push(elem);
    }
    let re_reved: Vec<_> = from_back.into_iter().rev().collect();

    assert_eq!(from_front, re_reved);
}

#[test]
fn test_cursor_move_peek() {
    let mut m: DequeueList<u32> = DequeueList::new();
    m.extend(vec![1, 2, 3, 4, 5, 6]);
    let mut cursor = m.cursor_mut();
    cursor.move_next();
    assert_eq!(cursor.current(), Some(&mut 1));
    assert_eq!(cursor.peek_next(), Some(&mut 2));
    assert_eq!(cursor.peek_prev(), None);
    assert_eq!(cursor.index(), Some(0));
    cursor.move_prev();
    assert_eq!(cursor.current(), None);
    assert_eq!(cursor.peek_next(), Some(&mut 1));
    assert_eq!(cursor.peek_prev(), Some(&mut 6));
    assert_eq!(cursor.index(), None);
    cursor.move_next();
    cursor.move_next();
    assert_eq!(cursor.current(), Some(&mut 2));
    assert_eq!(cursor.peek_next(), Some(&mut 3));
    assert_eq!(cursor.peek_prev(), Some(&mut 1));
    assert_eq!(cursor.index(), Some(1));

    let mut cursor = m.cursor_mut();
    cursor.move_prev();
    assert_eq!(cursor.current(), Some(&mut 6));
    assert_eq!(cursor.peek_next(), None);
    assert_eq!(cursor.peek_prev(), Some(&mut 5));
    assert_eq!(cursor.index(), Some(5));
    cursor.move_next();
    assert_eq!(cursor.current(), None);
    assert_eq!(cursor.peek_next(), Some(&mut 1));
    assert_eq!(cursor.peek_prev(), Some(&mut 6));
    assert_eq!(cursor.index(), None);
    cursor.move_prev();
    cursor.move_prev();
    assert_eq!(cursor.current(), Some(&mut 5));
    assert_eq!(cursor.peek_next(), Some(&mut 6));
    assert_eq!(cursor.peek_prev(), Some(&mut 4));
    assert_eq!(cursor.index(), Some(4));
}

#[test]
fn test_cursor_mut_insert() {
    let mut m: DequeueList<u32> = DequeueList::new();
    m.extend(vec![1, 2, 3, 4, 5, 6]);
    let mut cursor = m.cursor_mut();
    cursor.move_next();
    cursor.splice_before(DequeueList::from_iter(vec![7]));
    cursor.splice_after(DequeueList::from_iter(vec![8]));
    assert_eq!(to_vec(&m), &[7, 1, 8, 2, 3, 4, 5, 6]);
    let mut cursor = m.cursor_mut();
    cursor.move_next();
    cursor.move_prev();
    cursor.splice_before(DequeueList::from_iter(vec![9]));
    cursor.splice_after(DequeueList::from_iter(vec![10]));
    check_links(&m);
    assert_eq!(to_vec(&m), &[10, 7, 1, 8, 2, 3, 4, 5, 6, 9]);

    let mut cursor = m.cursor_mut();
    cursor.move_next();
    cursor.move_prev();
    assert_eq!(cursor.remove_current(), None);
    cursor.move_next();
    cursor.move_next();
    assert_eq!(cursor.remove_current(), Some(7));
    cursor.move_prev();
    cursor.move_prev();
    cursor.move_prev();
    assert_eq!(cursor.remove_current(), Some(9));
    cursor.move_next();
    assert_eq!(cursor.remove_current(), Some(10));
    check_links(&m);
    assert_eq!(to_vec(&m), &[1, 8, 2, 3, 4, 5, 6]);
    assert_eq!(m.len(), 7);

    let mut m: DequeueList<u32> = DequeueList::new();
    m.extend(vec![1, 8, 2, 3, 4, 5, 6]);

    let mut cursor = m.cursor_mut();
    cursor.move_next();
    let mut p: DequeueList<u32> = DequeueList::new();
    p.extend(vec![100, 101, 102, 103]);
    let mut q: DequeueList<u32> = DequeueList::new();
    q.extend(vec![200, 201, 202, 203]);
    cursor.splice_after(p);
    cursor.splice_before(q);
    check_links(&m);
    assert_eq!(
        to_vec(&m),
        &[200, 201, 202, 203, 1, 100, 101, 102, 103, 8, 2, 3, 4, 5, 6]
    );
    let mut cursor = m.cursor_mut();
    cursor.move_next();
    cursor.move_prev();
    let tmp = cursor.split_before();
    assert_eq!(drain(m), &[]);
    m = tmp;
    let mut cursor = m.cursor_mut();
    cursor.move_next();
    cursor.move_next();
    cursor.move_next();
    cursor.move_next();
    cursor.move_next();
    cursor.move_next();
    cursor.move_next();
    let tmp = cursor.split_after();
    assert_eq!(drain(tmp), &[102, 103, 8, 2, 3, 4, 5, 6]);
    check_links(&m);
    assert_eq!(to_vec(&m), &[200, 201, 202, 203, 1, 100, 101]);
}

#[test]
fn scenario_splice_around_the_head() {
    let mut m: DequeueList<u32> = DequeueList::from_iter(vec![1, 2, 3, 4, 5, 6]);
    let mut cursor = m.cursor_mut();
    cursor.move_next();
    assert_eq!(cursor.index(), Some(0));
    cursor.splice_before(DequeueList::from_iter(vec![7]));
    cursor.splice_after(DequeueList::from_iter(vec![8]));
    assert_eq!(to_vec(&m), vec![7, 1, 8, 2, 3, 4, 5, 6]);
    assert_eq!(m.len(), 8);
}

#[test]
fn scenario_remove_the_head() {
    let mut m: DequeueList<u32> = DequeueList::from_iter(vec![7, 1, 8, 2, 3, 4, 5, 6]);
    let mut cursor = m.cursor_mut();
    cursor.move_next();
    assert_eq!(cursor.index(), Some(0));
    assert_eq!(cursor.current(), Some(&mut 7));
    assert_eq!(cursor.remove_current(), Some(7));
    assert_eq!(cursor.current(), Some(&mut 1));
    assert_eq!(cursor.index(), Some(0));
    assert_eq!(to_vec(&m), vec![1, 8, 2, 3, 4, 5, 6]);
    assert_eq!(m.len(), 7);
}

#[test]
fn scenario_empty_list() {
    let mut m: DequeueList<u32> = DequeueList::new();
    assert_eq!(m.pop_front(), None);
    assert_eq!(m.pop_back(), None);
    assert_eq!(m.front(), None);
    assert_eq!(m.back(), None);
    assert_eq!(m.front_mut(), None);
    assert_eq!(m.back_mut(), None);
    assert!(m.is_empty());
    assert_eq!(m.cursor_mut().current(), None);
    let mut cursor = m.cursor_mut();
    cursor.move_next();
    assert_eq!(cursor.index(), None);
    assert_eq!(cursor.current(), None);
    cursor.move_prev();
    assert_eq!(cursor.index(), None);
    assert_eq!(cursor.peek_next(), None);
    assert_eq!(cursor.peek_prev(), None);
    assert_eq!(cursor.remove_current(), None);
    assert!(cursor.split_before().is_empty());
    assert!(cursor.split_after().is_empty());
    cursor.splice_before(DequeueList::new());
    cursor.splice_after(DequeueList::new());
    assert!(m.is_empty());
}

#[test]
fn scenario_split_after_the_head() {
    let mut m: DequeueList<u32> = DequeueList::from_iter(vec![1, 2, 3]);
    let mut cursor = m.cursor_mut();
    cursor.move_next();
    assert_eq!(cursor.current(), Some(&mut 1));
    let rest = cursor.split_after();
    assert_eq!(cursor.index(), Some(0));
    assert_eq!(cursor.current(), Some(&mut 1));
    assert_eq!(cursor.peek_next(), None);
    assert_eq!(to_vec(&rest), vec![2, 3]);
    assert_eq!(rest.len(), 2);
    assert_eq!(to_vec(&m), vec![1]);
    assert_eq!(m.len(), 1);
}

#[test]
fn split_before_then_splice_before_restores_the_list() {
    let whole = vec![10u32, 20, 30, 40, 50];
    for i in 0..=whole.len() {
        let mut m = DequeueList::from_iter(whole.clone());
        let mut cursor = m.cursor_mut();
        // Position `len` is the ghost position.
        for _ in 0..((i + 1) % (whole.len() + 1)) {
            cursor.move_next();
        }
        assert_eq!(cursor.index(), if i < whole.len() { Some(i) } else { None });
        let piece = cursor.split_before();
        assert_eq!(to_vec(&piece), whole[..i].to_vec());
        assert_eq!(cursor.index(), if i < whole.len() { Some(0) } else { None });
        cursor.splice_before(piece);
        check_links(&m);
        assert_eq!(to_vec(&m), whole);
        assert_eq!(m.len(), whole.len());
    }
}

#[test]
fn split_after_keeps_the_front() {
    let whole = vec![10u32, 20, 30, 40, 50];
    for i in 0..whole.len() {
        let mut m = DequeueList::from_iter(whole.clone());
        let mut cursor = m.cursor_mut();
        for _ in 0..=i {
            cursor.move_next();
        }
        let back = cursor.split_after();
        assert_eq!(cursor.index(), Some(i));
        assert_eq!(to_vec(&back), whole[i + 1..].to_vec());
        cursor.splice_after(back);
        assert_eq!(to_vec(&m), whole);
    }
    let mut m = DequeueList::from_iter(whole.clone());
    let mut cursor = m.cursor_mut();
    let all = cursor.split_after();
    assert_eq!(to_vec(&all), whole);
    assert!(m.is_empty());
}

#[test]
fn cursor_returns_to_the_ghost_after_len_plus_one_steps() {
    for len in 0..6usize {
        let mut m: DequeueList<usize> = DequeueList::new();
        for i in 0..len {
            m.push_back(i);
        }
        let mut cursor = m.cursor_mut();
        for step in 1..=len {
            cursor.move_next();
            assert_eq!(cursor.index(), Some(step - 1));
            assert_eq!(cursor.current().copied(), Some(step - 1));
        }
        cursor.move_next();
        assert_eq!(cursor.index(), None);
        assert_eq!(cursor.current(), None);
        for step in 1..=len {
            cursor.move_prev();
            assert_eq!(cursor.index(), Some(len - step));
            assert_eq!(cursor.current().copied(), Some(len - step));
        }
        cursor.move_prev();
        assert_eq!(cursor.index(), None);
    }
}

#[test]
fn splice_before_leaves_the_reported_index_as_it_was() {
    // The cursor stays on its node, which is further from the head after the
    // splice, but the index it reports is not counted on.
    let mut m: DequeueList<u32> = DequeueList::from_iter(vec![1, 2, 3]);
    let mut cursor = m.cursor_mut();
    cursor.move_next();
    cursor.move_next();
    assert_eq!(cursor.index(), Some(1));
    cursor.splice_before(DequeueList::from_iter(vec![8, 9]));
    assert_eq!(cursor.index(), Some(1));
    assert_eq!(cursor.current(), Some(&mut 2));
    assert_eq!(cursor.peek_prev(), Some(&mut 9));
    cursor.move_next();
    assert_eq!(cursor.index(), Some(2));
    assert_eq!(cursor.current(), Some(&mut 3));
    // Splitting goes by the node, not by the reported index.
    let front = cursor.split_before();
    assert_eq!(cursor.index(), Some(0));
    assert_eq!(to_vec(&front), vec![1, 8, 9, 2]);
    assert_eq!(front.len(), 4);
    assert_eq!(to_vec(&m), vec![3]);
    assert_eq!(m.len(), 1);
}

#[test]
fn splice_at_the_ghost_position() {
    let mut m: DequeueList<u32> = DequeueList::from_iter(vec![1, 2]);
    let mut cursor = m.cursor_mut();
    cursor.splice_before(DequeueList::from_iter(vec![3, 4]));
    assert_eq!(cursor.index(), None);
    cursor.splice_after(DequeueList::from_iter(vec![5, 6]));
    assert_eq!(cursor.index(), None);
    assert_eq!(to_vec(&m), vec![5, 6, 1, 2, 3, 4]);
    check_links(&m);

    let mut empty: DequeueList<u32> = DequeueList::new();
    let mut cursor = empty.cursor_mut();
    cursor.splice_after(DequeueList::from_iter(vec![1, 2, 3]));
    assert_eq!(cursor.index(), None);
    cursor.move_next();
    assert_eq!(cursor.current(), Some(&mut 1));
    assert_eq!(to_vec(&empty), vec![1, 2, 3]);
}

#[test]
fn splice_in_the_middle_and_at_the_tail() {
    let mut m: DequeueList<u32> = DequeueList::from_iter(vec![1, 2, 3]);
    let mut cursor = m.cursor_mut();
    cursor.move_prev();
    assert_eq!(cursor.index(), Some(2));
    cursor.splice_after(DequeueList::from_iter(vec![4, 5]));
    cursor.splice_before(DequeueList::from_iter(vec![6, 7]));
    cursor.splice_before(DequeueList::new());
    cursor.splice_after(DequeueList::new());
    assert_eq!(to_vec(&m), vec![1, 2, 6, 7, 3, 4, 5]);
    check_links(&m);
    assert_eq!(m.back(), Some(&5));
    assert_eq!(m.front(), Some(&1));
}

#[test]
fn writing_through_the_cursor() {
    let mut m: DequeueList<u32> = DequeueList::from_iter(vec![1, 2, 3]);
    let mut cursor = m.cursor_mut();
    cursor.move_next();
    cursor.move_next();
    *cursor.current().unwrap() = 20;
    *cursor.peek_prev().unwrap() = 10;
    *cursor.peek_next().unwrap() = 30;
    assert_eq!(to_vec(&m), vec![10, 20, 30]);
}

#[test]
fn remove_current_at_every_position() {
    for i in 0..4usize {
        let mut m: DequeueList<usize> = DequeueList::from_iter(vec![0, 1, 2, 3]);
        let mut cursor = m.cursor_mut();
        for _ in 0..=i {
            cursor.move_next();
        }
        assert_eq!(cursor.remove_current(), Some(i));
        if i < 3 {
            assert_eq!(cursor.index(), Some(i));
            assert_eq!(cursor.current().copied(), Some(i + 1));
        } else {
            assert_eq!(cursor.index(), None);
            assert_eq!(cursor.current(), None);
        }
        let mut expected = vec![0, 1, 2, 3];
        expected.remove(i);
        assert_eq!(to_vec(&m), expected);
        assert_eq!(m.len(), 3);
        check_links(&m);
    }
    let mut single: DequeueList<u8> = DequeueList::from_iter(vec![9]);
    let mut cursor = single.cursor_mut();
    cursor.move_next();
    assert_eq!(cursor.remove_current(), Some(9));
    assert_eq!(cursor.index(), None);
    assert!(single.is_empty());
    assert_eq!(single.front(), None);
    assert_eq!(single.back(), None);
}
