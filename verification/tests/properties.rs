use just_linked::{LURLinked, Node};

fn pairs_of(list: &LURLinked<i32>) -> Vec<(usize, i32)> {
    let mut out = Vec::new();
    let mut cursor = list.iter();
    while let Some((key, value)) = cursor.next() {
        out.push((key, *value));
    }
    out
}

fn pairs_from_back(list: &LURLinked<i32>) -> Vec<(usize, i32)> {
    let mut out = Vec::new();
    let mut cursor = list.iter();
    while let Some((key, value)) = cursor.next_back() {
        out.push((key, *value));
    }
    out
}

#[test]
fn new_container_is_empty() {
    let mut list: LURLinked<i32> = LURLinked::new();
    assert_eq!(list.len(), 0);
    assert!(list.is_empty());
    assert_eq!(list.remove_last(), None);
    assert_eq!(list.remove(0), None);
    assert_eq!(list.move_front(0), None);
    assert_eq!(list.get(0), None);
    assert_eq!(list.get_mut(0), None);
    assert_eq!(pairs_of(&list), vec![]);
}

#[test]
fn default_container_is_empty() {
    let list: LURLinked<i32> = Default::default();
    assert_eq!(list.len(), 0);
    assert!(list.is_empty());
}

#[test]
fn node_carries_its_payload() {
    let node = Node::new(7u8);
    assert_eq!(node.into_inner(), Some(7u8));
    let hand: Node<u8> = Node::default();
    assert_eq!(hand.into_inner(), None);
}

#[test]
fn keys_of_a_fresh_container_count_from_zero() {
    let mut list = LURLinked::new();
    assert_eq!(list.push(10), 0);
    assert_eq!(list.push(20), 1);
    assert_eq!(list.push(30), 2);
    assert_eq!(list.len(), 3);
    assert!(!list.is_empty());
}

#[test]
fn push_places_at_front() {
    let mut list = LURLinked::new();
    let a = list.push(1);
    let b = list.push(2);
    let c = list.push(3);
    assert_eq!(pairs_of(&list), vec![(c, 3), (b, 2), (a, 1)]);
    assert_eq!(pairs_from_back(&list), vec![(a, 1), (b, 2), (c, 3)]);
}

#[test]
fn length_matches_both_directions() {
    let mut list = LURLinked::new();
    for i in 0..17 {
        list.push(i);
    }
    list.remove(4);
    list.move_front(9);
    list.remove_last();
    assert_eq!(list.len(), 15);
    assert_eq!(pairs_of(&list).len(), 15);
    assert_eq!(pairs_from_back(&list).len(), 15);
    let mut reversed = pairs_from_back(&list);
    reversed.reverse();
    assert_eq!(pairs_of(&list), reversed);
}

#[test]
fn move_front_of_the_front_changes_nothing() {
    let mut list = LURLinked::new();
    let a = list.push(1);
    let b = list.push(2);
    let c = list.push(3);
    assert_eq!(list.move_front(c), Some(c));
    assert_eq!(pairs_of(&list), vec![(c, 3), (b, 2), (a, 1)]);
    assert_eq!(pairs_from_back(&list), vec![(a, 1), (b, 2), (c, 3)]);
    assert_eq!(list.remove(b), Some(2));
    assert_eq!(list.remove_last(), Some(1));
    assert_eq!(list.remove_last(), Some(3));
    assert_eq!(list.remove_last(), None);
}

#[test]
fn move_front_keeps_the_order_of_the_others() {
    let mut list = LURLinked::new();
    let a = list.push(1);
    let b = list.push(2);
    let c = list.push(3);
    let d = list.push(4);
    assert_eq!(list.move_front(b), Some(b));
    assert_eq!(pairs_of(&list), vec![(b, 2), (d, 4), (c, 3), (a, 1)]);
    assert_eq!(list.move_front(b), Some(b));
    assert_eq!(pairs_of(&list), vec![(b, 2), (d, 4), (c, 3), (a, 1)]);
    assert_eq!(list.move_front(a), Some(a));
    assert_eq!(pairs_of(&list), vec![(a, 1), (b, 2), (d, 4), (c, 3)]);
    assert_eq!(pairs_from_back(&list), vec![(c, 3), (d, 4), (b, 2), (a, 1)]);
    assert_eq!(list.len(), 4);
}

#[test]
fn remove_last_takes_the_oldest_first() {
    let mut list = LURLinked::new();
    list.push(1);
    list.push(2);
    list.push(3);
    assert_eq!(list.remove_last(), Some(1));
    assert_eq!(list.remove_last(), Some(2));
    assert_eq!(list.remove_last(), Some(3));
    assert_eq!(list.remove_last(), None);
    assert!(list.is_empty());
}

#[test]
fn round_trip_after_move() {
    let mut list = LURLinked::new();
    let k1 = list.push(1);
    let k2 = list.push(2);
    let k3 = list.push(3);
    assert_eq!(list.move_front(k1), Some(k1));
    assert_eq!(list.remove(k1), Some(1));
    assert_eq!(list.move_front(k2), Some(k2));
    assert_eq!(list.remove(k2), Some(2));
    assert_eq!(list.remove(k3), Some(3));
    assert!(list.is_empty());
    assert_eq!(list.len(), 0);
}

#[test]
fn stale_keys_stand_for_nothing() {
    let mut list = LURLinked::new();
    let a = list.push(1);
    let b = list.push(2);
    assert_eq!(list.remove(a), Some(1));
    assert_eq!(list.remove(a), None);
    assert_eq!(list.move_front(a), None);
    assert_eq!(list.get(a), None);
    assert_eq!(list.get_mut(a), None);
    assert_eq!(list.len(), 1);
    assert_eq!(pairs_of(&list), vec![(b, 2)]);
}

#[test]
fn clear_resets_fully() {
    let mut list = LURLinked::new();
    let a = list.push(1);
    let b = list.push(2);
    list.clear();
    assert_eq!(list.len(), 0);
    assert!(list.is_empty());
    assert_eq!(list.remove_last(), None);
    assert_eq!(list.get(a), None);
    assert_eq!(list.remove(b), None);
    assert_eq!(pairs_of(&list), vec![]);
    let fresh = list.push(9);
    assert_eq!(fresh, 0);
    assert_eq!(list.get(fresh), Some(&9));
    assert_eq!(list.move_front(fresh), Some(fresh));
    assert_eq!(pairs_of(&list), vec![(fresh, 9)]);
    assert_eq!(list.remove(fresh), Some(9));
    assert!(list.is_empty());
}

#[test]
fn keys_stay_with_their_values() {
    let mut list = LURLinked::new();
    let mut keys = Vec::new();
    for i in 0..50 {
        keys.push(list.push(i * 10));
    }
    let kept = keys[20];
    for round in 0..10usize {
        assert_eq!(list.remove(keys[round]), Some(round as i32 * 10));
        list.move_front(keys[49 - round]);
        list.move_front(kept);
        let extra = list.push(1000 + round as i32);
        assert_ne!(extra, kept);
        assert_eq!(list.get(kept), Some(&200));
        assert_eq!(list.get(extra), Some(&(1000 + round as i32)));
    }
    for i in 10..50usize {
        assert_eq!(list.get(keys[i]), Some(&(i as i32 * 10)));
    }
    assert_eq!(list.remove(kept), Some(200));
    assert_eq!(list.get(kept), None);
}

#[test]
fn a_released_key_is_handed_out_again() {
    let mut list = LURLinked::new();
    let a = list.push(1);
    let b = list.push(2);
    let c = list.push(3);
    assert_eq!(list.remove(b), Some(2));
    let again = list.push(4);
    assert_eq!(again, b);
    assert_eq!(list.get(again), Some(&4));
    assert_eq!(pairs_of(&list), vec![(again, 4), (c, 3), (a, 1)]);
}

#[test]
fn removal_keeps_the_order_of_the_others() {
    let mut list = LURLinked::new();
    let a = list.push(1);
    let b = list.push(2);
    let c = list.push(3);
    let d = list.push(4);
    let e = list.push(5);
    assert_eq!(list.remove(c), Some(3));
    assert_eq!(pairs_of(&list), vec![(e, 5), (d, 4), (b, 2), (a, 1)]);
    assert_eq!(pairs_from_back(&list), vec![(a, 1), (b, 2), (d, 4), (e, 5)]);
    assert_eq!(list.remove(e), Some(5));
    assert_eq!(pairs_of(&list), vec![(d, 4), (b, 2), (a, 1)]);
    assert_eq!(list.remove(a), Some(1));
    assert_eq!(pairs_of(&list), vec![(d, 4), (b, 2)]);
    assert_eq!(pairs_from_back(&list), vec![(b, 2), (d, 4)]);
    assert_eq!(list.len(), 2);
}

#[test]
fn get_mut_writes_in_place() {
    let mut list = LURLinked::new();
    let a = list.push(1);
    let b = list.push(2);
    match list.get_mut(a) {
        Some(value) => *value = 11,
        None => panic!("the key is live"),
    }
    assert_eq!(list.get(a), Some(&11));
    assert_eq!(list.get(b), Some(&2));
    assert_eq!(pairs_of(&list), vec![(b, 2), (a, 11)]);
    assert_eq!(list.remove(a), Some(11));
}

#[test]
fn shrink_to_fit_changes_nothing() {
    let mut list = LURLinked::new();
    let mut keys = Vec::new();
    for i in 0..100 {
        keys.push(list.push(i));
    }
    for i in 10..100usize {
        assert_eq!(list.remove(keys[i]), Some(i as i32));
    }
    let before = pairs_of(&list);
    list.shrink_to_fit();
    assert_eq!(pairs_of(&list), before);
    assert_eq!(list.len(), 10);
    for i in 0..10usize {
        assert_eq!(list.get(keys[i]), Some(&(i as i32)));
    }
    assert_eq!(list.remove_last(), Some(0));
}

#[test]
fn cursor_hands_out_each_pair_once() {
    let mut list = LURLinked::new();
    let mut expected = Vec::new();
    for i in 0..9 {
        expected.push((list.push(i), i));
    }
    let pattern = [true, true, false, true, false, false, true, false, true];
    let mut cursor = list.iter();
    let mut seen = Vec::new();
    let mut remaining = 9;
    assert_eq!(cursor.len(), remaining);
    for from_front in pattern {
        let item = if from_front { cursor.next() } else { cursor.next_back() };
        match item {
            Some((key, value)) => seen.push((key, *value)),
            None => panic!("a pair remains"),
        }
        remaining -= 1;
        assert_eq!(cursor.len(), remaining);
        assert_eq!(cursor.size_hint(), (remaining, Some(remaining)));
    }
    assert_eq!(cursor.next(), None);
    assert_eq!(cursor.next_back(), None);
    assert_eq!(cursor.next(), None);
    assert_eq!(cursor.len(), 0);
    assert_eq!(
        seen,
        vec![(8, 8), (7, 7), (0, 0), (6, 6), (1, 1), (2, 2), (5, 5), (3, 3), (4, 4)]
    );
    seen.sort();
    expected.sort();
    assert_eq!(seen, expected);
}

#[test]
fn cursor_copy_goes_its_own_way() {
    let mut list = LURLinked::new();
    let a = list.push(1);
    let b = list.push(2);
    let c = list.push(3);
    let mut cursor = list.iter();
    assert_eq!(cursor.next(), Some((c, &3)));
    let mut copy = cursor.clone();
    assert_eq!(copy.len(), 2);
    assert_eq!(copy.next_back(), Some((a, &1)));
    assert_eq!(copy.next_back(), Some((b, &2)));
    assert_eq!(copy.next_back(), None);
    assert_eq!(cursor.len(), 2);
    assert_eq!(cursor.next(), Some((b, &2)));
    assert_eq!(cursor.next(), Some((a, &1)));
    assert_eq!(cursor.next(), None);
}

#[test]
fn exclusive_cursor_writes_stay() {
    let mut list = LURLinked::new();
    let a = list.push(1);
    let b = list.push(2);
    let c = list.push(3);
    let mut cursor = list.iter_mut();
    assert_eq!(cursor.len(), 3);
    match cursor.next() {
        Some((key, value)) => {
            assert_eq!(key, c);
            *value += 10;
        },
        None => panic!("a pair remains"),
    }
    match cursor.next_back() {
        Some((key, value)) => {
            assert_eq!(key, a);
            *value += 20;
        },
        None => panic!("a pair remains"),
    }
    assert_eq!(cursor.len(), 1);
    match cursor.next_back() {
        Some((key, value)) => {
            assert_eq!(key, b);
            *value += 30;
        },
        None => panic!("a pair remains"),
    }
    assert!(cursor.next().is_none());
    assert!(cursor.next_back().is_none());
    assert_eq!(cursor.len(), 0);
    assert_eq!(pairs_of(&list), vec![(c, 13), (b, 32), (a, 21)]);
}

#[test]
fn owning_cursor_hands_out_front_to_back() {
    let mut list = LURLinked::new();
    list.push(1);
    let b = list.push(2);
    list.push(3);
    list.move_front(b);
    let mut cursor = list.into_iter();
    assert_eq!(cursor.len(), 3);
    assert_eq!(cursor.next(), Some(2));
    assert_eq!(cursor.len(), 2);
    assert_eq!(cursor.next(), Some(3));
    assert_eq!(cursor.next(), Some(1));
    assert_eq!(cursor.next(), None);
    assert_eq!(cursor.next(), None);
    assert_eq!(cursor.len(), 0);
}

#[test]
fn agrees_with_a_plain_sequence() {
    let mut list = LURLinked::new();
    let mut model: Vec<(usize, i32)> = Vec::new();
    let mut state: u64 = 0x2545_f491_4f6c_dd1d;
    for round in 0..4000 {
        state ^= state << 13;
        state ^= state >> 7;
        state ^= state << 17;
        let choice = (state >> 20) % 8;
        let pick = ((state >> 32) % 64) as usize;
        match choice {
            0 | 1 | 2 => {
                let key = list.push(round);
                assert!(model.iter().all(|pair| pair.0 != key));
                model.insert(0, (key, round));
            },
            3 | 4 => {
                let found = model.iter().position(|pair| pair.0 == pick);
                let expected = found.map(|at| model.remove(at).1);
                assert_eq!(list.remove(pick), expected);
            },
            5 | 6 => {
                let found = model.iter().position(|pair| pair.0 == pick);
                match found {
                    Some(at) => {
                        let pair = model.remove(at);
                        model.insert(0, pair);
                        assert_eq!(list.move_front(pick), Some(pick));
                    },
                    None => assert_eq!(list.move_front(pick), None),
                }
            },
            _ => {
                let expected = model.pop().map(|pair| pair.1);
                assert_eq!(list.remove_last(), expected);
            },
        }
        assert_eq!(list.len(), model.len());
        if round % 97 == 0 {
            assert_eq!(pairs_of(&list), model);
            let mut reversed = pairs_from_back(&list);
            reversed.reverse();
            assert_eq!(reversed, model);
            list.shrink_to_fit();
        }
    }
    assert_eq!(pairs_of(&list), model);
    for pair in &model {
        assert_eq!(list.get(pair.0), Some(&pair.1));
    }
}
