use cyclic_list::list::cursor::{MOVE_NEXT_ERROR, MOVE_PREV_ERROR};
use cyclic_list::List;
use std::cmp::Ordering;

fn to_vec<T: Clone>(list: &List<T>) -> Vec<T> {
    list.iter().collect().into_iter().cloned().collect()
}

#[test]
fn cursor_walk_from_the_docs() {
    let list = List::from_iter(['A', 'B', 'C', 'D'].into_iter());

    let mut cursor = list.cursor_start();
    assert_eq!(cursor.current(), Some(&'A'));

    assert!(cursor.move_next().is_ok());
    assert_eq!(cursor.current(), Some(&'B'));

    let mut cursor = list.cursor_end();
    assert_eq!(cursor.current(), None);

    assert!(cursor.move_prev().is_ok());
    assert_eq!(cursor.current(), Some(&'D'));

    let mut cursor = list.cursor_end();
    assert!(cursor.move_next().is_err());
    cursor.move_next_cyclic();
    assert_eq!(cursor.current(), Some(&'A'));
}

#[test]
fn cursor_current_and_previous_at_every_position() {
    let list = List::from_iter([1, 2, 3].into_iter());
    assert_eq!(list.cursor(0).current(), Some(&1));
    assert_eq!(list.cursor(1).current(), Some(&2));
    assert_eq!(list.cursor(2).current(), Some(&3));
    assert_eq!(list.cursor(3).current(), None);
    assert_eq!(list.cursor(0).previous(), None);
    assert_eq!(list.cursor(1).previous(), Some(&1));
    assert_eq!(list.cursor(2).previous(), Some(&2));
    assert_eq!(list.cursor(3).previous(), Some(&3));
    for at in 0..=3 {
        assert_eq!(list.cursor(at).index(), at);
        assert!(!list.cursor(at).is_empty());
    }
    let empty: List<i32> = List::new();
    assert!(empty.cursor(0).is_empty());
    assert_eq!(empty.cursor(0).current(), None);
    assert_eq!(empty.cursor(0).previous(), None);
}

#[test]
fn move_errors_leave_the_cursor_where_it_is() {
    let list = List::from_iter([1, 2, 3].into_iter());
    let mut cursor = list.cursor_end();
    assert_eq!(cursor.previous(), Some(&3));
    assert_eq!(cursor.move_next(), Err(MOVE_NEXT_ERROR));
    assert_eq!(cursor.move_next(), Err("`move_next` across ghost boundary"));
    assert_eq!(cursor.previous(), Some(&3));
    assert_eq!(cursor.index(), 3);

    let mut cursor = list.cursor_start();
    assert_eq!(cursor.move_prev(), Err(MOVE_PREV_ERROR));
    assert_eq!(cursor.move_prev(), Err("`move_prev` across ghost boundary"));
    assert_eq!(cursor.current(), Some(&1));
    assert_eq!(cursor.index(), 0);

    assert_eq!(cursor.move_next(), Ok(()));
    assert_eq!(cursor.index(), 1);
    assert_eq!(cursor.move_prev(), Ok(()));
    assert_eq!(cursor.index(), 0);
}

#[test]
fn cyclic_moves_wrap_at_the_sentinel() {
    let list = List::from_iter([1, 2, 3].into_iter());
    let mut cursor = list.cursor_end();
    cursor.move_next_cyclic();
    assert_eq!(cursor.index(), 0);
    assert_eq!(cursor.current(), Some(&1));
    cursor.move_prev_cyclic();
    assert_eq!(cursor.index(), 3);
    assert_eq!(cursor.previous(), Some(&3));
    cursor.move_prev_cyclic();
    assert_eq!(cursor.index(), 2);
    cursor.move_next_cyclic();
    assert_eq!(cursor.index(), 3);

    let empty: List<i32> = List::new();
    let mut cursor = empty.cursor_start();
    cursor.move_next_cyclic();
    assert_eq!(cursor.index(), 0);
    cursor.move_prev_cyclic();
    assert_eq!(cursor.index(), 0);
}

#[test]
fn seek_forward_and_backward_report_the_steps_made() {
    let list = List::from_iter([1, 2, 3].into_iter());
    let mut cursor = list.cursor_start();
    assert_eq!(cursor.seek_forward(5), Err(3));
    assert_eq!(cursor.previous(), Some(&3));
    assert_eq!(cursor.index(), 3);
    assert_eq!(cursor.seek_forward(0), Ok(()));
    assert_eq!(cursor.seek_forward(1), Err(0));

    assert_eq!(cursor.seek_backward(5), Err(3));
    assert_eq!(cursor.current(), Some(&1));
    assert_eq!(cursor.index(), 0);
    assert_eq!(cursor.seek_backward(1), Err(0));

    assert_eq!(cursor.seek_forward(2), Ok(()));
    assert_eq!(cursor.index(), 2);
    assert_eq!(cursor.seek_backward(1), Ok(()));
    assert_eq!(cursor.index(), 1);
    assert_eq!(cursor.seek_forward(2), Ok(()));
    assert_eq!(cursor.index(), 3);
    assert_eq!(cursor.seek_backward(3), Ok(()));
    assert_eq!(cursor.index(), 0);
}

#[test]
fn seek_to_from_the_docs() {
    let list = List::from_iter([1, 2, 3].into_iter());
    let mut cursor = list.cursor_start();
    assert_eq!(cursor.current(), Some(&1));
    assert!(cursor.seek_to(2).is_ok());
    assert_eq!(cursor.current(), Some(&3));
    assert_eq!(cursor.seek_to(5), Err(2));
    assert_eq!(cursor.current(), Some(&3));
    assert_eq!(cursor.index(), 2);
}

#[test]
fn seek_to_reaches_every_target_from_every_position() {
    for len in 0..12usize {
        let list = List::from_iter(0..len);
        for from in 0..=len {
            for target in 0..=len + 3 {
                let mut cursor = list.cursor(from);
                let result = cursor.seek_to(target);
                if target <= len {
                    assert_eq!(result, Ok(()));
                    assert_eq!(cursor.index(), target);
                    if target < len {
                        assert_eq!(cursor.current(), Some(&target));
                    } else {
                        assert_eq!(cursor.current(), None);
                    }
                } else {
                    assert_eq!(result, Err(target - len));
                    assert_eq!(cursor.index(), from);
                }
                let mut list = List::from_iter(0..len);
                let mut cursor = list.cursor_mut(from);
                let result = cursor.seek_to(target);
                if target <= len {
                    assert_eq!(result, Ok(()));
                    assert_eq!(cursor.index(), target);
                    assert_eq!(cursor.current().copied(), (0..len).nth(target));
                } else {
                    assert_eq!(result, Err(target - len));
                    assert_eq!(cursor.index(), from);
                }
            }
        }
    }
}

#[test]
fn move_to_start_and_end() {
    let list = List::from_iter([1, 2, 3].into_iter());
    let mut cursor = list.cursor_end();
    assert_eq!(cursor.previous(), Some(&3));
    cursor.move_to_start();
    assert_eq!(cursor.current(), Some(&1));
    assert_eq!(cursor.index(), 0);
    cursor.move_to_end();
    assert_eq!(cursor.previous(), Some(&3));
    assert_eq!(cursor.index(), 3);
}

#[test]
fn cursor_equality_and_order() {
    let list = List::from_iter([1, 2, 3].into_iter());
    let cursor1 = list.cursor_start();
    let mut cursor2 = cursor1.clone();
    assert!(cursor1.eq(&cursor2));
    assert_eq!(cursor1.partial_cmp(&cursor2), Some(Ordering::Equal));

    cursor2.move_next_cyclic();
    assert!(!cursor1.eq(&cursor2));
    assert_eq!(cursor1.partial_cmp(&cursor2), Some(Ordering::Less));
    assert_eq!(cursor2.partial_cmp(&cursor1), Some(Ordering::Greater));

    let another_list = list.clone();
    let cursor3 = another_list.cursor_start();
    assert!(!cursor1.eq(&cursor3));
    let cursor4 = another_list.cursor_end();
    assert_eq!(cursor1.partial_cmp(&cursor4), None);

    assert!(cursor1.eq_on(&cursor3, true));
    assert!(!cursor1.eq_on(&cursor3, false));
    assert_eq!(cursor1.partial_cmp_on(&cursor4, true), Some(Ordering::Less));
    assert_eq!(cursor1.partial_cmp_on(&cursor4, false), None);
}

#[test]
fn example_insert_keeps_the_current_element() {
    let mut list = List::from_iter([1, 2, 3].into_iter());
    let mut cursor = list.cursor_mut(1);
    cursor.insert(9);
    assert_eq!(cursor.current(), Some(&2));
    assert_eq!(cursor.previous(), Some(&9));
    assert_eq!(cursor.index(), 2);
    assert_eq!(to_vec(&list), vec![1, 9, 2, 3]);
}

#[test]
fn insert_from_the_docs() {
    let mut list = List::from_iter([1, 2, 3].into_iter());
    let mut cursor = list.cursor_mut(1);
    cursor.insert(4);
    assert_eq!(cursor.index(), 2);
    assert_eq!(cursor.current(), Some(&2));
    cursor.move_to_end();
    cursor.insert(5);
    assert_eq!(cursor.index(), 5);
    assert_eq!(cursor.previous(), Some(&5));
    assert_eq!(to_vec(&list), vec![1, 4, 2, 3, 5]);
}

#[test]
fn remove_from_the_docs() {
    let mut list = List::from_iter(0..10);
    let mut cursor = list.cursor_mut(5);
    assert_eq!(cursor.remove(), Some(5));
    assert_eq!(cursor.index(), 5);
    assert_eq!(cursor.current(), Some(&6));

    cursor.move_to_start();
    assert_eq!(cursor.remove(), Some(0));
    assert_eq!(cursor.index(), 0);
    assert_eq!(cursor.current(), Some(&1));

    cursor.move_to_end();
    assert_eq!(cursor.remove(), None);
    assert_eq!(cursor.index(), 8);
    assert_eq!(cursor.current(), None);

    assert_eq!(to_vec(&list), vec![1, 2, 3, 4, 6, 7, 8, 9]);
}

#[test]
fn backspace_from_the_docs() {
    let mut list = List::from_iter(0..10);
    let mut cursor = list.cursor_mut(5);
    assert_eq!(cursor.backspace(), Some(4));
    assert_eq!(cursor.index(), 4);
    assert_eq!(cursor.current(), Some(&5));

    cursor.move_to_start();
    assert_eq!(cursor.backspace(), None);
    assert_eq!(cursor.index(), 0);
    assert_eq!(cursor.current(), Some(&0));

    cursor.move_to_end();
    assert_eq!(cursor.backspace(), Some(9));
    assert_eq!(cursor.index(), 8);
    assert_eq!(cursor.current(), None);

    assert_eq!(to_vec(&list), vec![0, 1, 2, 3, 5, 6, 7, 8]);
}

#[test]
fn example_split_at_the_cursor() {
    let mut list = List::from_iter(0..10);
    let mut cursor = list.cursor_mut(5);
    let right = cursor.split().unwrap();
    assert_eq!(cursor.current(), None);
    assert_eq!(cursor.index(), 5);
    assert!(cursor.split().is_none());
    assert_eq!(to_vec(&right), vec![5, 6, 7, 8, 9]);
    assert_eq!(to_vec(&list), vec![0, 1, 2, 3, 4]);
    assert_eq!(right.len(), 5);
    assert_eq!(list.len(), 5);
}

#[test]
fn split_before_from_the_docs() {
    let mut list = List::from_iter(0..10);
    let mut cursor = list.cursor_mut(5);
    let left = cursor.split_before().unwrap();
    assert_eq!(cursor.current(), Some(&5));
    assert_eq!(cursor.index(), 0);
    assert!(cursor.split_before().is_none());
    assert_eq!(to_vec(&left), vec![0, 1, 2, 3, 4]);
    assert_eq!(to_vec(&list), vec![5, 6, 7, 8, 9]);

    let mut cursor = list.cursor_end_mut();
    let all = cursor.split_before().unwrap();
    assert_eq!(cursor.index(), 0);
    assert_eq!(cursor.current(), None);
    assert_eq!(to_vec(&all), vec![5, 6, 7, 8, 9]);
    assert!(list.is_empty());
}

#[test]
fn splice_from_the_docs() {
    let mut list = List::from_iter([0, 1, 7, 8, 9].into_iter());
    let list2 = List::from_iter([2, 3, 4, 5, 6].into_iter());
    let mut cursor = list.cursor_mut(2);
    cursor.splice(list2);
    assert_eq!(cursor.current(), Some(&7));
    assert_eq!(cursor.index(), 7);
    cursor.splice(List::new());
    assert_eq!(cursor.index(), 7);
    assert_eq!(to_vec(&list), (0..10).collect::<Vec<i32>>());
}

#[test]
fn cursor_mut_push_and_pop_at_the_ends() {
    let mut list = List::from_iter([1, 2, 3].into_iter());
    let mut cursor = list.cursor_end_mut();
    cursor.insert(4);
    cursor.push_front(0);
    assert_eq!(cursor.index(), 5);
    assert_eq!(cursor.previous(), Some(&4));
    assert_eq!(to_vec(cursor.view()), vec![0, 1, 2, 3, 4]);

    assert_eq!(cursor.pop_front(), Some(0));
    assert_eq!(cursor.index(), 4);
    assert_eq!(cursor.previous(), Some(&4));

    // At the sentinel the cursor stays at the sentinel.
    cursor.push_back(5);
    assert_eq!(cursor.index(), 5);
    assert_eq!(cursor.current(), None);
    assert_eq!(cursor.previous(), Some(&5));
    assert_eq!(cursor.pop_back(), Some(5));
    assert_eq!(cursor.index(), 4);
    assert_eq!(cursor.current(), None);

    // On the last element the cursor moves on to the sentinel.
    assert!(cursor.move_prev().is_ok());
    assert_eq!(cursor.current(), Some(&4));
    assert_eq!(cursor.pop_back(), Some(4));
    assert_eq!(cursor.index(), 3);
    assert_eq!(cursor.current(), None);

    // On the first element the cursor moves on to the new front.
    cursor.move_to_start();
    assert_eq!(cursor.pop_front(), Some(1));
    assert_eq!(cursor.index(), 0);
    assert_eq!(cursor.current(), Some(&2));
    cursor.push_back(9);
    assert_eq!(cursor.index(), 0);
    assert_eq!(cursor.pop_back(), Some(9));
    assert_eq!(cursor.index(), 0);
    assert_eq!(cursor.current(), Some(&2));
    assert_eq!(to_vec(&list), vec![2, 3]);

    let mut empty: List<i32> = List::new();
    let mut cursor = empty.cursor_start_mut();
    assert_eq!(cursor.pop_front(), None);
    assert_eq!(cursor.pop_back(), None);
    assert_eq!(cursor.index(), 0);
}

#[test]
fn cursor_mut_changes_elements_in_place() {
    let mut list = List::from_iter([1, 2, 3].into_iter());
    let mut cursor = list.cursor_mut(0);
    *cursor.current_mut().unwrap() *= 5;
    assert_eq!(cursor.current(), Some(&5));
    assert!(cursor.previous_mut().is_none());
    assert!(list.cursor_mut(3).current_mut().is_none());

    let mut cursor = list.cursor_mut(3);
    *cursor.previous_mut().unwrap() *= 5;
    assert_eq!(cursor.previous(), Some(&15));
    assert_eq!(cursor.as_cursor().previous(), Some(&15));
    assert_eq!(cursor.as_cursor().index(), 3);
    let reader = cursor.into_cursor();
    assert_eq!(reader.index(), 3);
    assert_eq!(reader.previous(), Some(&15));
    assert_eq!(to_vec(&list), vec![5, 2, 15]);
}

#[test]
fn lib_example_with_a_mutable_cursor() {
    let mut list = List::from_iter([1, 2, 3, 4].into_iter());
    let mut cursor = list.cursor_start_mut();
    cursor.insert(0);
    assert_eq!(cursor.current(), Some(&1));
    assert_eq!(to_vec(cursor.view()), vec![0, 1, 2, 3, 4]);
    assert!(cursor.seek_to(3).is_ok());
    assert_eq!(cursor.remove(), Some(3));
    assert_eq!(to_vec(cursor.view()), vec![0, 1, 2, 4]);
    cursor.push_front(5);
    assert_eq!(to_vec(cursor.view()), vec![5, 0, 1, 2, 4]);

    let mut list = List::from_iter([1, 2, 3, 4].into_iter());
    let mut cursor = list.cursor_start_mut();
    cursor.insert(5);
    assert_eq!(cursor.current(), Some(&1));
    assert!(cursor.seek_forward(2).is_ok());
    assert_eq!(cursor.remove(), Some(3));
    assert_eq!(cursor.current(), Some(&4));
    assert_eq!(cursor.backspace(), Some(2));
    assert_eq!(cursor.current(), Some(&4));
    assert_eq!(to_vec(&list), vec![5, 1, 4]);
}

#[test]
fn cursor_iter_is_cyclic() {
    let list = List::from_iter([1, 2, 3].into_iter());
    let mut cursor_iter = list.cursor_start().into_iter();
    assert_eq!(cursor_iter.peek(), Some(&1));
    assert_eq!(cursor_iter.next(), Some(&1));
    assert_eq!(cursor_iter.next(), Some(&2));
    assert_eq!(cursor_iter.next(), Some(&3));
    assert_eq!(cursor_iter.peek(), None);
    assert_eq!(cursor_iter.next(), None);
    assert_eq!(cursor_iter.next(), Some(&1));

    let mut cursor_iter = cursor_iter.rev();
    assert_eq!(cursor_iter.peek(), Some(&1));
    assert_eq!(cursor_iter.next(), Some(&1));
    assert_eq!(cursor_iter.next(), None);
    assert_eq!(cursor_iter.next(), Some(&3));
    let cursor = cursor_iter.into_cursor();
    assert_eq!(cursor.index(), 2);

    let mut cursor_iter = list.cursor_start().into_iter();
    cursor_iter.next();
    let cursor = cursor_iter.rev().rev().into_cursor();
    assert_eq!(cursor.current(), Some(&2));

    let empty: List<i32> = List::new();
    let mut cursor_iter = empty.cursor_start().into_iter();
    assert_eq!(cursor_iter.next(), None);
    assert_eq!(cursor_iter.next(), None);
    let mut cursor_iter = cursor_iter.rev();
    assert_eq!(cursor_iter.next(), None);
}

#[test]
fn cursor_back_iter_is_cyclic() {
    let list = List::from_iter([1, 2, 3].into_iter());
    let mut cursor_iter = list.cursor_end().into_iter().rev();
    assert_eq!(cursor_iter.next(), Some(&3));
    assert_eq!(cursor_iter.next(), Some(&2));
    assert_eq!(cursor_iter.next(), Some(&1));
    assert_eq!(cursor_iter.next(), None);
    assert_eq!(cursor_iter.next(), Some(&3));
    let cursor = cursor_iter.into_cursor();
    assert_eq!(cursor.previous(), Some(&2));
}

#[test]
fn cursor_iter_mut_is_cyclic() {
    let mut list = List::from_iter([1, 2, 3].into_iter());
    let mut cursor_iter = list.cursor_start_mut().into_iter();
    *cursor_iter.next().unwrap() *= 5;
    *cursor_iter.next().unwrap() *= 5;
    *cursor_iter.peek().unwrap() += 1;
    *cursor_iter.next().unwrap() *= 5;
    assert_eq!(cursor_iter.peek(), None);
    assert_eq!(cursor_iter.next(), None);
    assert_eq!(cursor_iter.next(), Some(&mut 5));
    assert_eq!(cursor_iter.next(), Some(&mut 10));
    let cursor = cursor_iter.into_cursor_mut();
    assert_eq!(cursor.current(), Some(&20));
    assert_eq!(to_vec(&list), vec![5, 10, 20]);

    let mut list = List::from_iter([1, 2, 3].into_iter());
    let mut cursor_iter = list.cursor_end_mut().into_iter().rev();
    *cursor_iter.next().unwrap() *= 5;
    *cursor_iter.next().unwrap() *= 5;
    *cursor_iter.next().unwrap() *= 5;
    assert_eq!(cursor_iter.next(), None);
    assert_eq!(cursor_iter.next(), Some(&mut 15));
    assert_eq!(cursor_iter.peek(), Some(&mut 10));
    assert_eq!(cursor_iter.next(), Some(&mut 10));
    let cursor = cursor_iter.into_cursor_mut();
    assert_eq!(cursor.previous(), Some(&5));
    let mut back = cursor.into_iter().rev().rev();
    assert_eq!(back.next(), Some(&mut 10));
    let reader = back.into_cursor();
    assert_eq!(reader.index(), 2);
    let reader = list.cursor_start_mut().into_iter().rev().into_cursor();
    assert_eq!(reader.index(), 0);
}

#[test]
fn cursor_index_follows_every_step() {
    let mut list = List::from_iter(0..6);
    let mut cursor = list.cursor_start_mut();
    let mut len: usize = 6;
    let mut expected: usize = 0;
    let script: [u8; 24] = [
        0, 0, 1, 2, 0, 3, 3, 0, 0, 0, 0, 0, 0, 1, 1, 2, 4, 3, 1, 1, 1, 1, 1, 5,
    ];
    for step in script {
        match step {
            0 => {
                if cursor.move_next().is_ok() {
                    expected += 1;
                }
            }
            1 => {
                if cursor.move_prev().is_ok() {
                    expected -= 1;
                }
            }
            2 => {
                cursor.insert(100);
                len += 1;
                expected += 1;
            }
            3 => {
                if cursor.remove().is_some() {
                    len -= 1;
                }
            }
            4 => {
                assert!(cursor.seek_to(2).is_ok());
                expected = 2;
            }
            _ => {
                assert_eq!(cursor.seek_forward(100), Err(len - expected));
                expected = len;
            }
        }
        assert_eq!(cursor.index(), expected);
        assert!(cursor.index() <= len);
        assert_eq!(cursor.view().len(), len);
        assert_eq!(cursor.current().is_none(), expected == len);
    }
}
