use cyclic_list::List;

/// A small generator of numbers, the same on every run.
struct Numbers(u64);

impl Numbers {
    fn next(&mut self, below: usize) -> usize {
        self.0 = self.0.wrapping_mul(6364136223846793005).wrapping_add(1442695040888963407);
        ((self.0 >> 33) as usize) % below.max(1)
    }
}

fn to_vec<T: Clone>(list: &List<T>) -> Vec<T> {
    list.iter().collect().into_iter().cloned().collect()
}

fn check_against<T: Clone + PartialEq + std::fmt::Debug>(list: &List<T>, model: &[T]) {
    assert_eq!(to_vec(list), model);
    assert_eq!(list.len(), model.len());
    assert_eq!(list.is_empty(), model.is_empty());
    assert_eq!(list.front(), model.first());
    assert_eq!(list.back(), model.last());
    let mut backward = Vec::new();
    let mut iter = list.iter();
    while let Some(x) = iter.next_back() {
        backward.push(x.clone());
    }
    backward.reverse();
    assert_eq!(backward, model);
}

#[test]
fn list_behaves_like_a_vector_under_any_run_of_operations() {
    let mut numbers = Numbers(7);
    let mut list: List<u32> = List::new();
    let mut model: Vec<u32> = Vec::new();
    for step in 0..4000u32 {
        match numbers.next(16) {
            0 => {
                list.push_front(step);
                model.insert(0, step);
            }
            1 => {
                list.push_back(step);
                model.push(step);
            }
            2 => {
                let expected = if model.is_empty() { None } else { Some(model.remove(0)) };
                assert_eq!(list.pop_front(), expected);
            }
            3 => {
                assert_eq!(list.pop_back(), model.pop());
            }
            4 => {
                let at = numbers.next(model.len() + 1);
                list.insert(at, step);
                model.insert(at, step);
            }
            5 => {
                if !model.is_empty() {
                    let at = numbers.next(model.len());
                    assert_eq!(list.remove(at), model.remove(at));
                }
            }
            6 => {
                let at = numbers.next(model.len() + 1);
                let tail = list.split_off(at);
                let model_tail = model.split_off(at);
                check_against(&tail, &model_tail);
                if numbers.next(2) == 0 {
                    let mut tail = tail;
                    list.prepend(&mut tail);
                    assert!(tail.is_empty());
                    let mut joined = model_tail;
                    joined.extend(model.iter().copied());
                    model = joined;
                } else {
                    let mut tail = tail;
                    list.append(&mut tail);
                    assert!(tail.is_empty());
                    model.extend(model_tail);
                }
            }
            7 => {
                let at = numbers.next(model.len() + 1);
                let count = numbers.next(5);
                let other: Vec<u32> = (0..count as u32).map(|i| step * 10 + i).collect();
                list.splice_at(at, List::from_iter(other.clone().into_iter()));
                let rest = model.split_off(at);
                model.extend(other);
                model.extend(rest);
            }
            8 => {
                list.sort();
                model.sort();
                assert!(list.is_sorted());
            }
            9 => {
                list.sort_by(|a, b| (b % 7).cmp(&(a % 7)));
                model.sort_by(|a, b| (b % 7).cmp(&(a % 7)));
            }
            10 => {
                let at = numbers.next(model.len() + 1);
                let mut cursor = list.cursor_mut(at);
                assert_eq!(cursor.index(), at);
                assert_eq!(cursor.current(), model.get(at));
                if let Some(x) = cursor.current_mut() {
                    *x = x.wrapping_add(1);
                    model[at] = model[at].wrapping_add(1);
                }
                let removed = cursor.backspace();
                if at > 0 {
                    assert_eq!(removed, Some(model.remove(at - 1)));
                    assert_eq!(cursor.index(), at - 1);
                } else {
                    assert_eq!(removed, None);
                    assert_eq!(cursor.index(), 0);
                }
            }
            11 => {
                let at = numbers.next(model.len() + 1);
                let mut cursor = list.cursor_mut(at);
                let head = cursor.split_before().unwrap_or_default();
                let model_tail = model.split_off(at);
                check_against(&head, &model);
                assert_eq!(cursor.index(), 0);
                cursor.move_to_end();
                cursor.splice(head);
                let model_head = std::mem::replace(&mut model, model_tail);
                model.extend(model_head);
                assert_eq!(cursor.index(), model.len());
            }
            12 => {
                let picked: Vec<u32> = model.iter().copied().filter(|x| x % 5 == 0).collect();
                let mut drained = Vec::new();
                let mut drain = list.drain_filter(|x| *x % 5 == 0);
                while let Some(x) = drain.next() {
                    drained.push(x);
                }
                assert_eq!(drained, picked);
                model.retain(|x| x % 5 != 0);
            }
            13 => {
                let copy = list.clone();
                check_against(&copy, &model);
                assert!(copy.eq(&list));
                let mut other = List::from_iter(0..3u32);
                other.clone_from(&list);
                check_against(&other, &model);
            }
            14 => {
                if model.len() > 60 {
                    list.clear();
                    model.clear();
                }
            }
            _ => {
                let x = numbers.next(50) as u32;
                assert_eq!(list.contains(&x), model.contains(&x));
                let target = numbers.next(model.len() + 4);
                let mut cursor = list.cursor(numbers.next(model.len() + 1));
                let from = cursor.index();
                match cursor.seek_to(target) {
                    Ok(()) => {
                        assert!(target <= model.len());
                        assert_eq!(cursor.index(), target);
                        assert_eq!(cursor.current(), model.get(target));
                    }
                    Err(over) => {
                        assert_eq!(over, target - model.len());
                        assert_eq!(cursor.index(), from);
                    }
                }
            }
        }
        check_against(&list, &model);
    }
}
