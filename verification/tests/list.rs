use cyclic_list::List;
use std::cell::RefCell;
use std::fmt::Debug;

struct DropChecker<'a, T: Copy> {
    value: T,
    dropped: &'a RefCell<Vec<T>>,
}

impl<'a, T: Copy> DropChecker<'a, T> {
    fn new(value: T, dropped: &'a RefCell<Vec<T>>) -> Self {
        Self { value, dropped }
    }
}

impl<'a, T: Copy> Drop for DropChecker<'a, T> {
    fn drop(&mut self) {
        self.dropped.borrow_mut().push(self.value);
    }
}

fn to_vec<T: Clone>(list: &List<T>) -> Vec<T> {
    list.iter().collect().into_iter().cloned().collect()
}

fn list_eq<T, I>(list: &List<T>, expected: I)
where
    T: Debug + Clone + Eq,
    I: IntoIterator<Item = T>,
{
    assert_eq!(to_vec(list), expected.into_iter().collect::<Vec<T>>());
}

fn create() {
    let mut list = List::<i32>::new();
    assert!(list.is_empty());
    list.push_back(1);
    assert!(!list.is_empty());
    assert_eq!(list.pop_back(), Some(1));
    assert!(list.is_empty());
}

fn drop_in_order() {
    let dropped = RefCell::new(Vec::<i32>::new());
    let mut list = List::new();
    list.push_back(DropChecker::new(1, &dropped));
    list.push_back(DropChecker::new(2, &dropped));
    list.push_back(DropChecker::new(3, &dropped));
    drop(list);
    assert_eq!(dropped.borrow().as_slice(), &[1, 2, 3]);
}

#[test]
fn list_list_create() {
    create();
}

#[test]
fn mod_list_create() {
    create();
}

#[test]
fn list_list_drop() {
    drop_in_order();
}

#[test]
fn mod_list_drop() {
    drop_in_order();
}

#[test]
fn list_push_and_pop() {
    let mut list = List::new();
    assert!(list.is_empty());
    assert_eq!(list.len(), 0);

    assert_eq!(list.front(), None);
    assert_eq!(list.back(), None);
    assert_eq!(list.pop_front(), None);
    assert_eq!(list.pop_back(), None);

    list.push_back(1);
    assert_eq!(list.back(), Some(&1));
    assert_eq!(list.pop_front(), Some(1));
    assert_eq!(list.pop_back(), None);
    assert!(list.is_empty());
    assert_eq!(list.len(), 0);

    list.push_front(1);
    list.push_front(2);
    list.push_back(3);
    assert_eq!(list.back(), Some(&3));
    assert_eq!(list.front(), Some(&2));
    assert_eq!(list.pop_front(), Some(2));
    assert_eq!(list.pop_back(), Some(3));

    assert_eq!(list.front(), Some(&1));
    assert_eq!(list.pop_front(), Some(1));
    assert_eq!(list.front(), None);
    assert_eq!(list.back(), None);
    assert!(list.is_empty());
    assert_eq!(list.len(), 0);
}

#[test]
fn list_insert_and_remove() {
    let mut list = List::from_iter(0..10);
    list.insert(5, 10);
    list_eq(&list, (0..5).chain(Some(10)).chain(5..10));

    assert_eq!(list.remove(10), 9);
    assert_eq!(list.back(), Some(&8));
    list_eq(&list, (0..5).chain(Some(10)).chain(5..9));

    list.insert(0, 11);
    assert_eq!(list.front(), Some(&11));
    list_eq(&list, (11..=11).chain((0..5).chain(Some(10)).chain(5..9)));

    assert_eq!(list.remove(0), 11);
    assert_eq!(list.front(), Some(&0));
    list_eq(&list, (0..5).chain(Some(10)).chain(5..9));

    list.insert(10, 12);
    assert_eq!(list.back(), Some(&12));
    list_eq(&list, (0..5).chain(Some(10)).chain(5..9).chain(Some(12)));
}

fn check_split_and_append_and_prepend<T, I1, I2, I3>(list: I1, other: I2, at: usize, appended: I3)
where
    T: Clone + Eq + Debug,
    I1: IntoIterator<Item = T>,
    I2: IntoIterator<Item = T>,
    I3: IntoIterator<Item = T>,
{
    // Construct the lists with iterators.
    let mut list = List::from_iter(list.into_iter());
    let other = List::from_iter(other.into_iter());
    let appended = List::from_iter(appended.into_iter());

    let cloned = list.clone();
    let mut other_cloned = other.clone();

    // Test append
    list.append(&mut other_cloned);
    assert!(other_cloned.is_empty());
    assert!(list.eq(&appended));
    assert_eq!(to_vec(&list), to_vec(&appended));
    assert_eq!(list.len(), cloned.len() + other.len());

    // Test split
    let split = list.split_off(at);
    assert!(list.eq(&cloned));
    assert!(split.eq(&other.clone()));
    assert_eq!(list.len(), cloned.len());

    let (mut list, other) = (other, list);
    let cloned = list.clone();
    let mut other_cloned = other.clone();

    // Test prepend
    list.prepend(&mut other_cloned);
    assert!(other_cloned.is_empty());
    assert!(list.eq(&appended));
    assert_eq!(to_vec(&list), to_vec(&appended));
    assert_eq!(list.len(), cloned.len() + other.len());

    let split = list.split_off(at);
    assert!(list.eq(&other));
    assert!(split.eq(&cloned));
}

#[test]
fn list_split_and_append() {
    check_split_and_append_and_prepend(0..5, 5..7, 5, 0..7);
    check_split_and_append_and_prepend(0..5, None, 5, 0..5);
    check_split_and_append_and_prepend(0..5, 5..6, 5, 0..6);
    check_split_and_append_and_prepend(0..1, 1..3, 1, 0..3);
    check_split_and_append_and_prepend(0..1, None, 1, 0..1);
    check_split_and_append_and_prepend(0..1, 1..2, 1, 0..2);
    check_split_and_append_and_prepend(None, 0..2, 0, 0..2);
    check_split_and_append_and_prepend::<i32, _, _, _>(None, None, 0, None);
    check_split_and_append_and_prepend(None, 0..1, 0, 0..1);
}

fn check_splice<T, I1, I2, I3>(list: I1, other: I2, at: usize, spliced: I3)
where
    T: Clone + Eq + Debug,
    I1: IntoIterator<Item = T>,
    I2: IntoIterator<Item = T>,
    I3: IntoIterator<Item = T>,
{
    let mut list = List::from_iter(list.into_iter());
    let other = List::from_iter(other.into_iter());
    let spliced = List::from_iter(spliced.into_iter());

    list.splice_at(at, other.clone());
    assert!(list.eq(&spliced));
    assert_eq!(to_vec(&list), to_vec(&spliced));
    assert_eq!(list.len(), spliced.len());
}

#[test]
fn list_splice() {
    check_splice(0..5, 5..7, 5, 0..7);
    check_splice(0..5, 5..7, 2, (0..2).chain(5..7).chain(2..5));
    check_splice(0..5, 5..7, 0, (5..7).chain(0..5));
    check_splice(0..5, Some(5), 5, 0..6);
    check_splice(0..5, Some(5), 2, (0..2).chain(Some(5)).chain(2..5));
    check_splice(0..5, Some(5), 0, Some(5).into_iter().chain(0..5));
    check_splice(Some(0), 1..3, 1, 0..3);
    check_splice(Some(0), 1..3, 0, (1..3).chain(Some(0)));
    check_splice(None, 0..2, 0, 0..2);
    check_splice(None, Some(0), 0, Some(0));
    check_splice::<i32, _, _, _>(None, None, 0, None);
}

#[test]
fn list_len() {
    let mut list = List::new();
    assert!(list.is_empty());
    assert_eq!(list.len(), 0);

    list.push_back(1);
    assert_eq!(list.len(), 1);

    list.pop_front();
    assert_eq!(list.len(), 0);

    list.append(&mut List::from_iter(0..5));
    assert_eq!(list.len(), 5);

    list.remove(3);
    assert_eq!(list.len(), 4);

    list.splice_at(3, List::from_iter(5..7));
    assert_eq!(list.len(), 6);

    let other = list.split_off(4);
    assert_eq!(list.len(), 4);
    assert_eq!(other.len(), 2);

    list.prepend(&mut List::from_iter(7..10));
    assert_eq!(list.len(), 7);

    list.clear();
    assert_eq!(list.len(), 0);
}

#[test]
fn drop_after_push_front_drops_every_element_once() {
    let dropped = RefCell::new(Vec::<i32>::new());
    let mut list = List::new();
    list.push_front(DropChecker::new(1, &dropped));
    list.push_front(DropChecker::new(2, &dropped));
    list.push_back(DropChecker::new(3, &dropped));
    drop(list.pop_front());
    assert_eq!(dropped.borrow().as_slice(), &[2]);
    drop(list);
    let mut all = dropped.borrow().clone();
    all.sort();
    assert_eq!(all, vec![1, 2, 3]);
}

#[test]
fn clear_empties_the_list_and_slots_are_reused() {
    let mut list = List::from_iter(0..100);
    list.clear();
    assert!(list.is_empty());
    assert_eq!(list.front(), None);
    list.extend(0..50);
    assert_eq!(to_vec(&list), (0..50).collect::<Vec<i32>>());
    list.extend(50..200);
    assert_eq!(to_vec(&list), (0..200).collect::<Vec<i32>>());
    assert_eq!(list.len(), 200);
}

#[test]
fn default_is_empty() {
    let list: List<u8> = Default::default();
    assert!(list.is_empty());
    assert_eq!(list.len(), 0);
}

#[test]
fn front_mut_and_back_mut_change_in_place() {
    let mut list = List::new();
    assert_eq!(list.front_mut(), None);
    assert_eq!(list.back_mut(), None);
    list.push_front(1);
    if let Some(x) = list.front_mut() {
        *x = 5;
    }
    assert_eq!(list.front(), Some(&5));
    assert_eq!(list.back(), Some(&5));
    list.push_back(1);
    if let Some(x) = list.back_mut() {
        *x = 7;
    }
    assert_eq!(to_vec(&list), vec![5, 7]);
}

#[test]
fn split_off_from_the_docs() {
    let mut list = List::new();
    list.push_front(1);
    list.push_front(2);
    list.push_front(3);
    let mut split = list.split_off(2);
    assert_eq!(split.pop_front(), Some(1));
    assert_eq!(split.pop_front(), None);
    assert_eq!(to_vec(&list), vec![3, 2]);
    let all = list.split_off(0);
    assert!(list.is_empty());
    assert_eq!(to_vec(&all), vec![3, 2]);
}

#[test]
fn remove_and_insert_from_the_docs() {
    let mut list = List::new();
    list.push_front(1);
    list.push_front(2);
    list.push_front(3);
    assert_eq!(list.remove(1), 2);
    assert_eq!(list.remove(0), 3);
    assert_eq!(list.remove(0), 1);

    let mut list = List::from_iter([1, 2, 3].into_iter());
    list.insert(2, 4);
    list.insert(4, 5);
    assert_eq!(to_vec(&list), vec![1, 2, 4, 3, 5]);

    let mut list = List::from_iter([1, 2, 3].into_iter());
    let other = List::from_iter([4, 5, 6].into_iter());
    list.splice_at(2, other);
    assert_eq!(to_vec(&list), vec![1, 2, 4, 5, 6, 3]);
}

#[test]
fn append_and_prepend_from_the_docs() {
    let mut list1 = List::new();
    list1.push_back('a');
    let mut list2 = List::new();
    list2.push_back('b');
    list2.push_back('c');
    list1.append(&mut list2);
    assert_eq!(to_vec(&list1), vec!['a', 'b', 'c']);
    assert!(list2.is_empty());

    let mut list1 = List::new();
    list1.push_back('a');
    let mut list2 = List::new();
    list2.push_back('b');
    list2.push_back('c');
    list2.prepend(&mut list1);
    assert_eq!(to_vec(&list2), vec!['a', 'b', 'c']);
    assert!(list1.is_empty());
}

#[test]
fn covariance_holds() {
    cyclic_list::list::assert_covariance();
}

#[test]
fn example_splice_in_the_middle() {
    let mut list = List::from_iter([1, 2, 3].into_iter());
    list.splice_at(1, List::from_iter([9, 9].into_iter()));
    assert_eq!(to_vec(&list), vec![1, 9, 9, 2, 3]);
}

#[test]
fn example_empty_list() {
    let mut list: List<i32> = List::new();
    assert_eq!(list.pop_front(), None);
    let mut cursor = list.cursor_end();
    assert_eq!(cursor.index(), 0);
    assert!(cursor.move_next().is_err());
    assert_eq!(cursor.index(), 0);
}

#[test]
fn split_and_splice_are_inverse() {
    for len in 0..12usize {
        for at in 0..=len {
            let mut list = List::from_iter(0..len);
            let tail = list.split_off(at);
            assert_eq!(to_vec(&list), (0..at).collect::<Vec<usize>>());
            assert_eq!(to_vec(&tail), (at..len).collect::<Vec<usize>>());
            list.splice_at(at, tail);
            assert_eq!(to_vec(&list), (0..len).collect::<Vec<usize>>());

            let mut cursor = list.cursor_mut(at);
            let head = cursor.split_before();
            assert_eq!(head.is_none(), at == 0);
            assert_eq!(cursor.index(), 0);
            cursor.splice(head.unwrap_or_default());
            assert_eq!(cursor.index(), at);
            assert_eq!(to_vec(&list), (0..len).collect::<Vec<usize>>());
        }
    }
}

fn is_send_and_sync<T: Send + Sync>() -> bool {
    true
}

#[test]
fn list_can_move_between_threads_as_a_unit() {
    assert!(is_send_and_sync::<List<i32>>());
    assert!(is_send_and_sync::<List<String>>());
}
