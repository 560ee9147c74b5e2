use cyclic_list::list::algorithms::sort::{merge_sort, INSERTION_SORT_THRESHOLD};
use cyclic_list::List;
use std::cmp::Ordering;

fn to_vec<T: Clone>(list: &List<T>) -> Vec<T> {
    list.iter().collect().into_iter().cloned().collect()
}

/// A sequence of `len` values that repeats often enough to hold ties.
fn scrambled(len: usize, seed: u64) -> Vec<u32> {
    let mut state = seed.wrapping_mul(6364136223846793005).wrapping_add(1442695040888963407);
    (0..len)
        .map(|_| {
            state = state.wrapping_mul(6364136223846793005).wrapping_add(1442695040888963407);
            ((state >> 33) % 17) as u32
        })
        .collect()
}

#[test]
fn example_sort_five() {
    let mut list = List::from_iter([5, 2, 4, 3, 1].into_iter());
    list.sort();
    assert_eq!(to_vec(&list), vec![1, 2, 3, 4, 5]);
    assert_eq!(list.len(), 5);
    assert_eq!(list.front(), Some(&1));
    assert_eq!(list.back(), Some(&5));
}

#[test]
fn sort_agrees_with_the_standard_stable_sort() {
    for len in 0..70usize {
        for seed in 0..4u64 {
            let values = scrambled(len, seed + 31 * len as u64);
            let pairs: Vec<(u32, usize)> = values.iter().copied().zip(0..).collect();
            let mut expected = pairs.clone();
            expected.sort_by(|a, b| a.0.cmp(&b.0));

            let mut list = List::from_iter(pairs.clone().into_iter());
            list.sort_by(|a, b| a.0.cmp(&b.0));
            assert_eq!(to_vec(&list), expected);
            assert_eq!(list.len(), len);

            let mut list = List::from_iter(pairs.clone().into_iter());
            list.sort_by_key(|pair| pair.0);
            assert_eq!(to_vec(&list), expected);

            let mut list = List::from_iter(pairs.clone().into_iter());
            merge_sort(&mut list, |a: &(u32, usize), b: &(u32, usize)| a.0 < b.0);
            assert_eq!(to_vec(&list), expected);

            let mut plain = List::from_iter(values.clone().into_iter());
            plain.sort();
            let mut sorted = values.clone();
            sorted.sort();
            assert_eq!(to_vec(&plain), sorted);
            let backward: Vec<u32> = {
                let mut out = Vec::new();
                let mut iter = plain.iter();
                while let Some(x) = iter.next_back() {
                    out.push(*x);
                }
                out
            };
            sorted.reverse();
            assert_eq!(backward, sorted);
        }
    }
}

#[test]
fn sort_is_a_stable_permutation() {
    let values = [3u32, 1, 3, 2, 1, 3, 2, 2, 1, 0, 3, 0, 1, 2, 3, 0, 1];
    let mut list = List::from_iter(values.iter().copied().zip(0usize..));
    list.sort_by(|a, b| a.0.cmp(&b.0));
    let sorted = to_vec(&list);
    for pair in sorted.windows(2) {
        assert!(pair[0].0 <= pair[1].0);
        if pair[0].0 == pair[1].0 {
            assert!(pair[0].1 < pair[1].1);
        }
    }
    let mut origins: Vec<usize> = sorted.iter().map(|pair| pair.1).collect();
    origins.sort();
    assert_eq!(origins, (0..values.len()).collect::<Vec<usize>>());
    for pair in &sorted {
        assert_eq!(values[pair.1], pair.0);
    }
}

#[test]
fn sorting_a_sorted_list_moves_nothing() {
    for len in [0usize, 1, 2, 8, 9, 40] {
        let pairs: Vec<(u32, usize)> = (0..len).map(|i| ((i / 3) as u32, i)).collect();
        let mut list = List::from_iter(pairs.clone().into_iter());
        list.sort_by(|a, b| a.0.cmp(&b.0));
        assert_eq!(to_vec(&list), pairs);
        list.sort_by_key(|pair| pair.0);
        assert_eq!(to_vec(&list), pairs);
    }
}

#[test]
fn sort_handles_both_sides_of_the_threshold() {
    assert_eq!(INSERTION_SORT_THRESHOLD, 8);
    for len in [7usize, 8, 9, 16, 17, 18, 33] {
        let mut list = List::from_iter((0..len).rev());
        list.sort();
        assert_eq!(to_vec(&list), (0..len).collect::<Vec<usize>>());
        // The ring is whole after the sort: it can be walked and changed.
        list.push_front(len);
        list.push_back(len + 1);
        assert_eq!(list.remove(1), 0);
        assert_eq!(list.len(), len + 1);
        list.sort_by(|a, b| b.cmp(a));
        let mut expected: Vec<usize> = (1..len + 2).collect();
        expected.reverse();
        assert_eq!(to_vec(&list), expected);
    }
}

#[test]
fn sort_with_a_comparator_that_contradicts_itself_keeps_every_element() {
    let mut calls = 0u32;
    let mut list = List::from_iter(0..40u32);
    merge_sort(&mut list, |_: &u32, _: &u32| {
        calls += 1;
        calls % 3 == 0
    });
    let mut found = to_vec(&list);
    found.sort();
    assert_eq!(found, (0..40u32).collect::<Vec<u32>>());
    assert_eq!(list.len(), 40);
}

#[test]
fn is_sorted_and_its_variants() {
    let empty: List<i32> = List::new();
    assert!(empty.is_sorted());
    assert!(List::from_iter([1].into_iter()).is_sorted());
    assert!(List::from_iter([1, 2, 2, 9].into_iter()).is_sorted());
    assert!(!List::from_iter([1, 3, 2, 4].into_iter()).is_sorted());

    let list = List::from_iter([-2i32, -1, 0, 3].into_iter());
    assert!(list.is_sorted());
    assert!(!list.is_sorted_by_key(|n| n.abs()));
    assert!(list.is_sorted_by_key(|n| *n));
    assert!(list.is_sorted_by(|a, b| Some(a.cmp(b))));
    assert!(!list.is_sorted_by(|a, b| Some(b.cmp(a))));
    assert!(!list.is_sorted_by(|_, _| None));
    let mut asked = 0;
    assert!(!list.is_sorted_by(|_, _| {
        asked += 1;
        Some(Ordering::Greater)
    }));
    assert_eq!(asked, 1);
}

#[test]
fn contains_finds_equal_elements() {
    let list = List::from_iter([0, 1, 2].into_iter());
    assert!(list.contains(&0));
    assert!(list.contains(&2));
    assert!(!list.contains(&10));
    assert!(!List::<i32>::new().contains(&0));
}

#[test]
fn lists_compare_element_by_element() {
    let a = List::from_iter([1, 2, 3].into_iter());
    let b = List::from_iter([1, 2, 3].into_iter());
    let c = List::from_iter([1, 2, 4].into_iter());
    let d = List::from_iter([1, 2].into_iter());
    let e: List<i32> = List::new();
    assert!(a.eq(&b));
    assert!(!a.eq(&c));
    assert!(!a.eq(&d));
    assert!(!d.eq(&a));
    assert!(e.eq(&List::new()));
    assert!(!e.eq(&a));

    assert_eq!(a.cmp(&b), Ordering::Equal);
    assert_eq!(a.cmp(&c), Ordering::Less);
    assert_eq!(c.cmp(&a), Ordering::Greater);
    assert_eq!(a.cmp(&d), Ordering::Greater);
    assert_eq!(d.cmp(&a), Ordering::Less);
    assert_eq!(e.cmp(&a), Ordering::Less);
    assert_eq!(e.cmp(&List::new()), Ordering::Equal);

    assert_eq!(a.partial_cmp(&b), Some(Ordering::Equal));
    assert_eq!(a.partial_cmp(&c), Some(Ordering::Less));
    assert_eq!(a.partial_cmp(&d), Some(Ordering::Greater));
    assert_eq!(d.partial_cmp(&c), Some(Ordering::Less));
}

#[test]
fn partial_cmp_stops_at_the_first_pair_that_decides() {
    let a = List::from_iter([1.0f64, f64::NAN, 3.0].into_iter());
    let b = List::from_iter([1.0f64, 2.0, 3.0].into_iter());
    let c = List::from_iter([0.5f64, f64::NAN].into_iter());
    assert_eq!(a.partial_cmp(&b), None);
    assert_eq!(b.partial_cmp(&a), None);
    assert_eq!(c.partial_cmp(&a), Some(Ordering::Less));
    assert_eq!(a.partial_cmp(&c), Some(Ordering::Greater));
    assert!(!a.eq(&a.clone()));
}

#[test]
fn clone_is_a_list_of_its_own() {
    let list = List::from_iter([String::from("a"), String::from("b")].into_iter());
    let mut copy = list.clone();
    assert!(copy.eq(&list));
    copy.push_back(String::from("c"));
    copy.front_mut().unwrap().push('!');
    assert_eq!(to_vec(&list), vec!["a", "b"]);
    assert_eq!(to_vec(&copy), vec!["a!", "b", "c"]);
}

#[test]
fn clone_from_overwrites_grows_and_shrinks() {
    let source = List::from_iter([1, 2, 3].into_iter());
    let mut longer = List::from_iter([9, 9, 9, 9, 9].into_iter());
    longer.clone_from(&source);
    assert_eq!(to_vec(&longer), vec![1, 2, 3]);
    assert_eq!(longer.len(), 3);

    let mut shorter = List::from_iter([9].into_iter());
    shorter.clone_from(&source);
    assert_eq!(to_vec(&shorter), vec![1, 2, 3]);

    let mut empty: List<i32> = List::new();
    empty.clone_from(&source);
    assert_eq!(to_vec(&empty), vec![1, 2, 3]);

    let mut full = List::from_iter([4, 5].into_iter());
    full.clone_from(&List::new());
    assert!(full.is_empty());
    assert_eq!(to_vec(&source), vec![1, 2, 3]);
}

#[test]
fn drain_takes_elements_from_the_front() {
    let mut list = List::from_iter(0..5);
    let mut drain = list.drain();
    assert_eq!(drain.next(), Some(0));
    assert_eq!(drain.next(), Some(1));
    drain.finish();
    assert!(list.is_empty());

    let mut list = List::from_iter(0..3);
    let mut drain = list.drain();
    let mut taken = Vec::new();
    while let Some(x) = drain.next() {
        taken.push(x);
    }
    assert_eq!(drain.next(), None);
    assert_eq!(taken, vec![0, 1, 2]);
    assert!(list.is_empty());
    assert_eq!(list.len(), 0);
}

#[test]
fn drain_filter_takes_what_the_filter_picks() {
    let mut list = List::from_iter(0..10);
    let mut drain = list.drain_filter(|x| *x % 3 == 0);
    let mut taken = Vec::new();
    while let Some(x) = drain.next() {
        taken.push(x);
    }
    assert_eq!(drain.next(), None);
    assert_eq!(taken, vec![0, 3, 6, 9]);
    assert_eq!(to_vec(&list), vec![1, 2, 4, 5, 7, 8]);
    assert_eq!(list.len(), 6);
}

#[test]
fn drain_filter_may_change_what_it_passes_over() {
    let mut list = List::from_iter([1, 2, 3, 4, 5].into_iter());
    let mut drain = list.drain_filter(|x| {
        *x *= 10;
        *x == 30
    });
    assert_eq!(drain.next(), Some(30));
    assert_eq!(to_vec(&list), vec![10, 20, 4, 5]);

    let mut list = List::from_iter([1, 2, 3].into_iter());
    let mut drain = list.drain_filter(|x| {
        *x += 1;
        false
    });
    assert_eq!(drain.next(), None);
    assert_eq!(drain.next(), None);
    assert_eq!(to_vec(&list), vec![2, 3, 4]);

    let mut empty: List<i32> = List::new();
    assert_eq!(empty.drain_filter(|_| true).next(), None);
}
