use skiplist::{Node, OrderedKey, SkipList, MAX_LEVEL};

#[test]
fn it_works() {
    let mut sk = SkipList::new();
    assert_eq!(sk.len(), 0);

    for i in 0..100 {
        sk.insert(i, i);
    }
    assert_eq!(sk.len(), 100);
    for i in 0..100 {
        let k = i;
        let mut v = i;
        assert_eq!(sk.get_mut(&k), Some(&mut v));
    }

    for i in 0..100 {
        sk.insert(i, i + 1);
    }
    assert_eq!(sk.len(), 100);
    for i in 0..100 {
        let k = i;
        let v = i + 1;
        assert_eq!(sk.get(&k), Some(&v));
    }

    // All twenty keys are in the list already: the size stays what it was.
    for i in 0..20 {
        sk.insert(i, i + 1);
    }
    assert_eq!(sk.len(), 100);
    for i in 0..20 {
        let k = i;
        let v = i + 1;
        assert_eq!(sk.get(&k), Some(&v));
    }
}

#[test]
fn ten_keys_then_lookup() {
    let mut sk: SkipList<i32, i32> = SkipList::new();
    for i in 0..10 {
        sk.insert(i, i);
    }
    assert_eq!(sk.len(), 10);
    assert_eq!(sk.get(&5), Some(&5));
}

#[test]
fn reinsert_overwrites_and_keeps_size() {
    let mut sk: SkipList<i32, i32> = SkipList::new();
    for i in 0..10 {
        sk.insert(i, i);
    }
    for i in 0..10 {
        sk.insert(i, i + 1);
    }
    assert_eq!(sk.len(), 10);
    assert_eq!(sk.get(&5), Some(&6));
}

#[test]
fn insert_beyond_smaller_set() {
    let mut sk: SkipList<i32, i32> = SkipList::new();
    for i in 0..10 {
        sk.insert(i, i);
    }
    for i in 0..10 {
        sk.insert(i, i + 1);
    }
    for i in 0..20 {
        sk.insert(i, i + 1);
    }
    assert_eq!(sk.len(), 20);
    assert_eq!(sk.get(&15), Some(&16));
    assert_eq!(sk.get(&19), Some(&20));
}

#[test]
fn empty_list_holds_nothing() {
    let mut sk: SkipList<i32, i32> = SkipList::new();
    assert_eq!(sk.len(), 0);
    assert_eq!(sk.level(), 1);
    assert_eq!(sk.get(&0), None);
    assert_eq!(sk.get(&-7), None);
    assert_eq!(sk.get(&i32::MAX), None);
    assert_eq!(sk.get_mut(&3), None);
    assert_eq!(sk.len(), 0);
}

#[test]
fn first_insert_into_empty_list() {
    let mut sk: SkipList<u64, u64> = SkipList::new();
    sk.insert(42, 1);
    assert_eq!(sk.len(), 1);
    assert_eq!(sk.get(&42), Some(&1));
    assert_eq!(sk.get(&41), None);
    assert_eq!(sk.get(&43), None);
}

#[test]
fn len_counts_distinct_keys() {
    let keys: [u32; 12] = [7, 3, 7, 9, 1, 3, 3, 20, 1, 0, 9, 15];
    let mut sk: SkipList<u32, usize> = SkipList::new();
    for (n, k) in keys.iter().enumerate() {
        sk.insert(*k, n);
    }
    // 7, 3, 9, 1, 20, 0, 15
    assert_eq!(sk.len(), 7);
}

#[test]
fn last_value_of_each_key_is_kept() {
    let keys: [u32; 12] = [7, 3, 7, 9, 1, 3, 3, 20, 1, 0, 9, 15];
    let mut sk: SkipList<u32, usize> = SkipList::new();
    for (n, k) in keys.iter().enumerate() {
        sk.insert(*k, n);
    }
    assert_eq!(sk.get(&7), Some(&2));
    assert_eq!(sk.get(&3), Some(&6));
    assert_eq!(sk.get(&9), Some(&10));
    assert_eq!(sk.get(&1), Some(&8));
    assert_eq!(sk.get(&20), Some(&7));
    assert_eq!(sk.get(&0), Some(&9));
    assert_eq!(sk.get(&15), Some(&11));
}

#[test]
fn upsert_twice_keeps_len_and_second_value() {
    let mut sk: SkipList<i64, i64> = SkipList::new();
    sk.insert(1, 10);
    sk.insert(2, 20);
    sk.insert(2, 21);
    assert_eq!(sk.len(), 2);
    let before = sk.len();
    sk.insert(2, 22);
    assert_eq!(sk.len(), before);
    assert_eq!(sk.get(&2), Some(&22));
    assert_eq!(sk.get(&1), Some(&10));
}

#[test]
fn never_inserted_keys_are_absent() {
    let mut sk: SkipList<i32, i32> = SkipList::new();
    for i in 0..50 {
        sk.insert(2 * i, i);
    }
    for i in 0..50 {
        assert_eq!(sk.get(&(2 * i + 1)), None);
        assert_eq!(sk.get_mut(&(2 * i + 1)), None);
    }
    assert_eq!(sk.get(&-1), None);
    assert_eq!(sk.get(&100), None);
    assert_eq!(sk.len(), 50);
}

#[test]
fn keys_in_any_order_are_all_found() {
    // 37 is coprime to 101, so this visits 1..=100 in a scrambled order.
    let mut sk: SkipList<u64, u64> = SkipList::new();
    for i in 1..=100u64 {
        let k = (i * 37) % 101;
        sk.insert(k, k * k);
    }
    assert_eq!(sk.len(), 100);
    for k in 1..=100u64 {
        assert_eq!(sk.get(&k), Some(&(k * k)));
    }
    assert_eq!(sk.get(&0), None);
    assert_eq!(sk.get(&101), None);
}

#[test]
fn descending_inserts_with_every_height() {
    let mut sk: SkipList<i32, i32> = SkipList::new();
    for i in 0..60 {
        let height = 1 + (i as usize * 7) % MAX_LEVEL;
        sk.insert_with_height(1000 - i, i, height);
    }
    assert_eq!(sk.len(), 60);
    assert_eq!(sk.level(), MAX_LEVEL);
    for i in 0..60 {
        assert_eq!(sk.get(&(1000 - i)), Some(&i));
    }
    assert_eq!(sk.get(&940), None);
    assert_eq!(sk.get(&1001), None);
}

#[test]
fn level_rises_only_with_a_taller_new_node() {
    let mut sk: SkipList<u8, u8> = SkipList::new();
    assert_eq!(sk.level(), 1);
    sk.insert_with_height(10, 0, 1);
    assert_eq!(sk.level(), 1);
    sk.insert_with_height(20, 0, 4);
    assert_eq!(sk.level(), 4);
    sk.insert_with_height(5, 0, 2);
    assert_eq!(sk.level(), 4);
    // The key is there already: no new node, so the height is not used.
    sk.insert_with_height(5, 1, 9);
    assert_eq!(sk.level(), 4);
    assert_eq!(sk.get(&5), Some(&1));
    sk.insert_with_height(15, 0, MAX_LEVEL);
    assert_eq!(sk.level(), MAX_LEVEL);
    assert_eq!(sk.len(), 4);
    assert_eq!(sk.get(&10), Some(&0));
    assert_eq!(sk.get(&15), Some(&0));
    assert_eq!(sk.get(&20), Some(&0));
}

#[test]
fn level_never_falls_on_random_inserts() {
    let mut sk: SkipList<u16, u16> = SkipList::new();
    let mut last = sk.level();
    for i in 0..500u16 {
        sk.insert(i.wrapping_mul(7919), i);
        let now = sk.level();
        assert!(now >= last);
        assert!(now <= MAX_LEVEL);
        last = now;
    }
}

#[test]
fn get_mut_changes_the_value_in_place() {
    let mut sk: SkipList<i32, String> = SkipList::new();
    sk.insert(1, String::from("one"));
    sk.insert(2, String::from("two"));
    match sk.get_mut(&2) {
        Some(v) => v.push_str("!"),
        None => panic!("key 2 is in the list"),
    }
    assert_eq!(sk.get(&2), Some(&String::from("two!")));
    assert_eq!(sk.get(&1), Some(&String::from("one")));
    assert_eq!(sk.len(), 2);
}

#[test]
fn node_constructors() {
    let n: Node<u32, u32> = Node::new(3, 4, 5);
    assert_eq!(n.levels(), 5);
    assert_eq!(n.key(), Some(&3));
    assert_eq!(n.value(), Some(&4));
    for l in 0..5 {
        assert_eq!(n.next(l), None);
    }

    let blank: Node<u32, u32> = Node::allocate(2);
    assert_eq!(blank.levels(), 2);
    assert_eq!(blank.key(), None);
    assert_eq!(blank.value(), None);
    assert_eq!(blank.next(0), None);
    assert_eq!(blank.next(1), None);

    let head: Node<u32, u32> = Node::new_uninit(MAX_LEVEL);
    assert_eq!(head.levels(), 20);
    assert_eq!(head.key(), None);
    assert_eq!(head.value(), None);
    for l in 0..MAX_LEVEL {
        assert_eq!(head.next(l), None);
    }
}

#[test]
fn integer_keys_are_ordered_as_integers() {
    assert!(3u8.is_less(&4));
    assert!(!4u8.is_less(&4));
    assert!(!5u8.is_less(&4));
    assert!(4u8.is_equal(&4));
    assert!(!4u8.is_equal(&5));
    assert!((-3i32).is_less(&2));
    assert!(!2i32.is_less(&-3));
    assert!(i64::MIN.is_less(&i64::MAX));
    assert!(0usize.is_less(&usize::MAX));
    assert!(u64::MAX.is_equal(&u64::MAX));
}

#[test]
fn signed_keys_around_zero() {
    let mut sk: SkipList<i8, i8> = SkipList::new();
    for k in [0i8, -1, 1, i8::MIN, i8::MAX, -64, 64] {
        sk.insert(k, k);
    }
    assert_eq!(sk.len(), 7);
    for k in [0i8, -1, 1, i8::MIN, i8::MAX, -64, 64] {
        assert_eq!(sk.get(&k), Some(&k));
    }
    assert_eq!(sk.get(&2), None);
    assert_eq!(sk.get(&-2), None);
}

#[test]
fn chain_walk_yields_increasing_keys() {
    let mut sk: SkipList<u64, u64> = SkipList::new();
    assert_eq!(sk.keys().len(), 0);
    for i in 1..=100u64 {
        let k = (i * 37) % 101;
        sk.insert(k, i);
    }
    // Overwriting keeps every key where it is.
    for k in [50u64, 1, 100, 37] {
        sk.insert(k, 0);
    }
    let keys = sk.keys();
    assert_eq!(keys.len(), 100);
    for w in keys.windows(2) {
        assert!(w[0] < w[1]);
    }
    let expected: Vec<u64> = (1..=100).collect();
    let found: Vec<u64> = keys.iter().map(|k| **k).collect();
    assert_eq!(found, expected);
}

#[test]
fn chain_walk_with_given_heights() {
    let mut sk: SkipList<i32, i32> = SkipList::new();
    sk.insert_with_height(30, 3, MAX_LEVEL);
    sk.insert_with_height(10, 1, 1);
    sk.insert_with_height(20, 2, 5);
    sk.insert_with_height(-40, 4, 2);
    sk.insert_with_height(25, 5, MAX_LEVEL);
    assert_eq!(sk.keys(), vec![&-40, &10, &20, &25, &30]);
    assert_eq!(sk.get(&25), Some(&5));
    assert_eq!(sk.get(&-40), Some(&4));
    assert_eq!(sk.get(&26), None);
}
