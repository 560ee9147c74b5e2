use cyclic_list::List;
use std::fmt::Debug;

fn check_iter<T, I>(input: I, mid: usize)
where
    T: Eq + Debug + Clone,
    I: IntoIterator<Item = T>,
{
    let vec = Vec::from_iter(input);
    let list = List::from_iter(vec.clone().into_iter());
    let len = vec.len();
    let mut iter = list.iter();
    for (i, item) in vec.iter().enumerate() {
        assert_eq!(iter.next(), Some(item));
        assert_eq!(iter.len(), len - i - 1);
    }
    assert_eq!(iter.next(), None);
    assert_eq!(iter.next(), None);
    assert_eq!(iter.next_back(), None);
    assert_eq!(iter.len(), 0);

    let mut iter = list.iter();
    for (i, item) in vec.iter().take(mid).enumerate() {
        assert_eq!(iter.next(), Some(item));
        assert_eq!(iter.len(), len - i - 1);
    }
    // The iterator turned round: what was its back is now its front.
    for (i, item) in vec.iter().skip(mid).rev().enumerate() {
        assert_eq!(iter.next_back(), Some(item));
        assert_eq!(iter.len(), len - mid - i - 1);
    }
    assert_eq!(iter.next_back(), None);
    assert_eq!(iter.next_back(), None);
    assert_eq!(iter.next(), None);
    assert_eq!(iter.len(), 0);
}

fn check_iter_mut<T, I>(input: I, mid: usize)
where
    T: Eq + Debug + Clone,
    I: IntoIterator<Item = T>,
{
    let mut vec = Vec::from_iter(input);
    let mut list = List::from_iter(vec.clone().into_iter());
    let len = vec.len();
    let mut iter = list.iter_mut();
    for (i, item) in vec.iter_mut().enumerate() {
        assert_eq!(iter.next(), Some(item));
        assert_eq!(iter.len(), len - i - 1);
    }
    assert_eq!(iter.next(), None);
    assert_eq!(iter.next(), None);
    assert_eq!(iter.next_back(), None);
    assert_eq!(iter.len(), 0);

    let mut iter = list.iter_mut();
    for (i, item) in vec.iter_mut().take(mid).enumerate() {
        assert_eq!(iter.next(), Some(item));
        assert_eq!(iter.len(), len - i - 1);
    }
    for (i, item) in vec.iter_mut().skip(mid).rev().enumerate() {
        assert_eq!(iter.next_back(), Some(item));
        assert_eq!(iter.len(), len - mid - i - 1);
    }
    assert_eq!(iter.next_back(), None);
    assert_eq!(iter.next_back(), None);
    assert_eq!(iter.next(), None);
    assert_eq!(iter.len(), 0);
}

fn check_back_iter<T, I>(input: I, mid: usize)
where
    T: Eq + Debug + Clone,
    I: IntoIterator<Item = T>,
{
    let vec = Vec::from_iter(input);
    let list = List::from_iter(vec.clone().into_iter());
    let len = vec.len();
    let mut iter = list.iter();
    for (i, item) in vec.iter().rev().enumerate() {
        assert_eq!(iter.next_back(), Some(item));
        assert_eq!(iter.len(), len - i - 1);
    }
    assert_eq!(iter.next_back(), None);
    assert_eq!(iter.next_back(), None);
    assert_eq!(iter.next(), None);
    assert_eq!(iter.len(), 0);

    let mut iter = list.iter();
    for (i, item) in vec.iter().rev().take(mid).enumerate() {
        assert_eq!(iter.next_back(), Some(item));
        assert_eq!(iter.len(), len - i - 1);
    }
    for (i, item) in vec.iter().rev().skip(mid).rev().enumerate() {
        assert_eq!(iter.next(), Some(item));
        assert_eq!(iter.len(), len - mid - i - 1);
    }
    assert_eq!(iter.next(), None);
    assert_eq!(iter.next(), None);
    assert_eq!(iter.next_back(), None);
    assert_eq!(iter.len(), 0);
}

fn check_back_iter_mut<T, I>(input: I, mid: usize)
where
    T: Eq + Debug + Clone,
    I: IntoIterator<Item = T>,
{
    let mut vec = Vec::from_iter(input);
    let mut list = List::from_iter(vec.clone().into_iter());
    let len = vec.len();
    let mut iter = list.iter_mut();
    for (i, item) in vec.iter_mut().rev().enumerate() {
        assert_eq!(iter.next_back(), Some(item));
        assert_eq!(iter.len(), len - i - 1);
    }
    assert_eq!(iter.next_back(), None);
    assert_eq!(iter.next_back(), None);
    assert_eq!(iter.next(), None);
    assert_eq!(iter.len(), 0);

    let mut iter = list.iter_mut();
    for (i, item) in vec.iter_mut().rev().take(mid).enumerate() {
        assert_eq!(iter.next_back(), Some(item));
        assert_eq!(iter.len(), len - i - 1);
    }
    for (i, item) in vec.iter_mut().rev().skip(mid).rev().enumerate() {
        assert_eq!(iter.next(), Some(item));
        assert_eq!(iter.len(), len - mid - i - 1);
    }
    assert_eq!(iter.next(), None);
    assert_eq!(iter.next(), None);
    assert_eq!(iter.next_back(), None);
    assert_eq!(iter.len(), 0);
}

fn check_case<T, I>(input: I, mid: usize)
where
    T: Eq + Debug + Clone,
    I: IntoIterator<Item = T> + Clone,
{
    check_iter(input.clone(), mid);
    check_iter_mut(input.clone(), mid);
    check_back_iter(input.clone(), mid);
    check_back_iter_mut(input.clone(), mid);
}

#[test]
fn test_iter() {
    check_case(0..10, 10);
    check_case(0..10, 8);
    check_case(0..10, 5);
    check_case(0..10, 2);
    check_case(0..10, 0);
    check_case(0..2, 2);
    check_case(0..2, 1);
    check_case(0..2, 0);
    check_case(0..1, 1);
    check_case(0..1, 0);
    check_case(0..0, 0);
}

#[test]
fn round_trip_forward_and_backward() {
    for len in 0..20i32 {
        let input: Vec<i32> = (0..len).map(|x| x * 7 % 5).collect();
        let list = List::from_iter(input.clone().into_iter());
        let forward: Vec<i32> = list.iter().collect().into_iter().copied().collect();
        assert_eq!(forward, input);
        let mut backward = Vec::new();
        let mut iter = list.iter();
        while let Some(x) = iter.next_back() {
            backward.push(*x);
        }
        let mut reversed = input.clone();
        reversed.reverse();
        assert_eq!(backward, reversed);
        assert_eq!(list.into_iter().collect(), input);
    }
}

#[test]
fn iter_from_the_docs() {
    let mut list = List::from_iter([1, 2, 3].into_iter());
    let mut iter = list.iter();
    assert_eq!(iter.next(), Some(&1));
    assert_eq!(iter.next(), Some(&2));
    assert_eq!(iter.next(), Some(&3));
    assert_eq!(iter.next(), None);
    assert_eq!(iter.next(), None);

    let mut iter = list.iter_mut();
    while let Some(item) = iter.next() {
        *item *= 2;
    }
    assert_eq!(list.into_iter().collect(), vec![2, 4, 6]);
}

#[test]
fn iter_mut_changes_from_both_ends() {
    let mut list = List::new();
    list.push_back(0);
    list.push_back(1);
    list.push_back(2);
    let mut iter = list.iter_mut();
    assert_eq!(iter.size_hint(), (3, Some(3)));
    *iter.next().unwrap() += 10;
    *iter.next_back().unwrap() += 30;
    assert_eq!(iter.size_hint(), (1, Some(1)));
    *iter.next_back().unwrap() += 20;
    assert!(iter.next().is_none());
    assert!(iter.next_back().is_none());
    assert_eq!(list.into_iter().collect(), vec![10, 21, 32]);
}

#[test]
fn iter_clone_last_and_size_hint() {
    let list = List::from_iter(0..5);
    let mut iter = list.iter();
    assert_eq!(iter.size_hint(), (5, Some(5)));
    assert_eq!(iter.next(), Some(&0));
    let copy = iter.clone();
    assert_eq!(iter.next(), Some(&1));
    assert_eq!(copy.len(), 4);
    assert_eq!(copy.last(), Some(&4));
    assert_eq!(iter.len(), 3);
    assert_eq!(iter.last(), Some(&4));
    let empty: List<i32> = List::new();
    assert_eq!(empty.iter().last(), None);
    assert_eq!(empty.iter().collect(), Vec::<&i32>::new());
}

#[test]
fn into_iter_from_both_ends() {
    let list = List::from_iter(0..5);
    let mut iter = list.into_iter();
    assert_eq!(iter.len(), 5);
    assert_eq!(iter.size_hint(), (5, Some(5)));
    assert_eq!(iter.next(), Some(0));
    assert_eq!(iter.next_back(), Some(4));
    assert_eq!(iter.len(), 3);
    assert_eq!(iter.next_back(), Some(3));
    assert_eq!(iter.next(), Some(1));
    assert_eq!(iter.next(), Some(2));
    assert_eq!(iter.next(), None);
    assert_eq!(iter.next_back(), None);
    assert_eq!(iter.next(), None);

    assert_eq!(List::from_iter(0..3).into_iter().last(), Some(2));
    assert_eq!(List::<i32>::new().into_iter().last(), None);
}

#[test]
fn from_iter_and_extend_keep_the_order() {
    let mut list = List::from_iter(vec![3, 1, 2].into_iter());
    assert_eq!(list.len(), 3);
    list.extend(vec![9, 8].into_iter());
    list.extend(None.into_iter());
    list.extend(Some(7).into_iter());
    assert_eq!(list.into_iter().collect(), vec![3, 1, 2, 9, 8, 7]);
    let empty = List::<u8>::from_iter(Vec::new().into_iter());
    assert!(empty.is_empty());
}
