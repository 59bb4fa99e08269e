use data_structures::skip_list::{climbs, BestTransactionLog, ListIterator};

fn drain<K: Copy, V: Clone>(mut it: ListIterator<K, V>) -> Vec<(K, V)> {
    let mut out = Vec::new();
    while let Some(entry) = it.next() {
        out.push(entry);
    }
    out
}

fn keys_on_level(list: &BestTransactionLog<usize, &'static str>, level: usize) -> Vec<usize> {
    drain(list.iter_level(level)).into_iter().map(|e| e.0).collect()
}

/// Towers of levels 5 (forced), 0, 2, 1, 0, 3 over the keys 1, 4, 6, 7, 11, 13.
fn sample() -> BestTransactionLog<usize, &'static str> {
    let mut list = BestTransactionLog::<usize, &str>::new_empty(5);
    list.append_with_level(1, "One", 0);
    list.append_with_level(4, "Four", 0);
    list.append_with_level(6, "Six", 2);
    list.append_with_level(7, "Seven", 1);
    list.append_with_level(11, "Eleven", 0);
    list.append_with_level(13, "Thirteen", 3);
    list
}

#[test]
fn sl() {
    let mut list = BestTransactionLog::<usize, &str>::new_empty(5);
    assert_eq!(list.find(5), None);

    list.append(1, "One");
    list.append(4, "Four");
    list.append(6, "Six");
    list.append(7, "Seven");
    list.append(11, "Eleven");
    list.append(13, "Thirteen");

    assert_eq!(list.find(1), Some("One"));
    assert_eq!(list.find(11), Some("Eleven"));
    assert_eq!(list.find(7), Some("Seven"));
    assert_eq!(list.find(13), Some("Thirteen"));
    assert_eq!(list.find(18), None);
}

#[test]
fn sl_scenario_with_absent_key_between() {
    let mut list = BestTransactionLog::<usize, &str>::new_empty(5);
    list.append(1, "One");
    list.append(4, "Four");
    list.append(6, "Six");
    list.append(7, "Seven");
    list.append(11, "Eleven");
    list.append(13, "Thirteen");

    assert_eq!(list.find(1), Some("One"));
    assert_eq!(list.find(11), Some("Eleven"));
    assert_eq!(list.find(7), Some("Seven"));
    assert_eq!(list.find(13), Some("Thirteen"));
    assert_eq!(list.find(18), None);
    assert_eq!(list.find(5), None);
}

#[test]
fn sl_empty_finds_nothing() {
    let list = BestTransactionLog::<usize, &str>::new_empty(3);
    assert_eq!(list.length, 0);
    assert_eq!(list.find(0), None);
    assert_eq!(list.find(7), None);
    assert_eq!(list.find(usize::MAX), None);
    assert_eq!(drain(list.into_iter()), vec![]);
}

#[test]
fn sl_round_trip_with_drawn_heights() {
    let mut list = BestTransactionLog::<u64, String>::new_empty(8);
    for i in 0..2000u64 {
        list.append(3 * i + 1, format!("value {}", i));
    }
    assert_eq!(list.length, 2000);
    for i in 0..2000u64 {
        assert_eq!(list.find(3 * i + 1), Some(format!("value {}", i)));
    }
}

#[test]
fn sl_round_trip_with_every_given_height() {
    for second in 0..=3usize {
        for third in 0..=3usize {
            let mut list = BestTransactionLog::<usize, usize>::new_empty(3);
            list.append_with_level(10, 100, 0);
            list.append_with_level(20, 200, second);
            list.append_with_level(30, 300, third);
            assert_eq!(list.find(10), Some(100));
            assert_eq!(list.find(20), Some(200));
            assert_eq!(list.find(30), Some(300));
            assert_eq!(list.find(5), None);
            assert_eq!(list.find(15), None);
            assert_eq!(list.find(25), None);
            assert_eq!(list.find(35), None);
        }
    }
}

#[test]
fn sl_absent_keys() {
    let list = sample();
    for key in [0usize, 2, 3, 5, 8, 9, 10, 12] {
        assert_eq!(list.find(key), None);
    }
    for key in [14usize, 15, 100, usize::MAX] {
        assert_eq!(list.find(key), None);
    }
}

#[test]
fn sl_length_counts_appends() {
    let mut list = BestTransactionLog::<usize, usize>::new_empty(4);
    for n in 0..50usize {
        assert_eq!(list.length, n as u64);
        list.append(n, n * n);
    }
    assert_eq!(list.length, 50);
}

#[test]
fn sl_levels_nest() {
    let list = sample();
    assert_eq!(keys_on_level(&list, 0), vec![1, 4, 6, 7, 11, 13]);
    assert_eq!(keys_on_level(&list, 1), vec![1, 6, 7, 13]);
    assert_eq!(keys_on_level(&list, 2), vec![1, 6, 13]);
    assert_eq!(keys_on_level(&list, 3), vec![1, 13]);
    assert_eq!(keys_on_level(&list, 4), vec![1]);
    assert_eq!(keys_on_level(&list, 5), vec![1]);
    for level in 1..=5usize {
        let below = keys_on_level(&list, level - 1);
        for key in keys_on_level(&list, level) {
            assert!(below.contains(&key));
        }
    }
}

#[test]
fn sl_levels_nest_with_drawn_heights() {
    let mut list = BestTransactionLog::<usize, &str>::new_empty(6);
    for key in 0..300usize {
        list.append(key, "x");
    }
    assert_eq!(keys_on_level(&list, 0), (0..300usize).collect::<Vec<_>>());
    for level in 1..=6usize {
        let below = keys_on_level(&list, level - 1);
        let here = keys_on_level(&list, level);
        assert_eq!(here[0], 0);
        assert!(here.len() <= below.len());
        for key in here {
            assert!(below.contains(&key));
        }
    }
}

#[test]
fn sl_first_entry_has_every_level() {
    let mut list = BestTransactionLog::<usize, &str>::new_empty(7);
    list.append(42, "first");
    for level in 0..=7usize {
        assert_eq!(drain(list.iter_level(level)), vec![(42, "first")]);
    }
    let mut list = BestTransactionLog::<usize, &str>::new_empty(7);
    list.append_with_level(42, "first", 2);
    list.append_with_level(43, "second", 2);
    for level in 0..=2usize {
        assert_eq!(keys_on_level(&list, level), vec![42, 43]);
    }
    for level in 3..=7usize {
        assert_eq!(keys_on_level(&list, level), vec![42]);
    }
}

#[test]
fn sl_single_level() {
    let mut list = BestTransactionLog::<usize, &str>::new_empty(0);
    list.append(1, "One");
    list.append(2, "Two");
    list.append(3, "Three");
    assert_eq!(list.find(1), Some("One"));
    assert_eq!(list.find(2), Some("Two"));
    assert_eq!(list.find(3), Some("Three"));
    assert_eq!(list.find(4), None);
    assert_eq!(keys_on_level(&list, 0), vec![1, 2, 3]);
}

#[test]
fn sl_iterates_in_append_order() {
    let list = sample();
    assert_eq!(
        drain(list.into_iter()),
        vec![
            (1, "One"),
            (4, "Four"),
            (6, "Six"),
            (7, "Seven"),
            (11, "Eleven"),
            (13, "Thirteen"),
        ]
    );
    let mut list = BestTransactionLog::<usize, usize>::new_empty(5);
    for key in 0..500usize {
        list.append(key / 2, key);
    }
    let entries = drain(list.into_iter());
    assert_eq!(entries.len(), 500);
    for (at, entry) in entries.iter().enumerate() {
        assert_eq!(*entry, (at / 2, at));
    }
    for pair in entries.windows(2) {
        assert!(pair[0].0 <= pair[1].0);
    }
}

#[test]
fn sl_exhausted_iterator_stays_empty() {
    let mut it = sample().iter_level(3);
    assert_eq!(it.next(), Some((1, "One")));
    assert_eq!(it.next(), Some((13, "Thirteen")));
    assert_eq!(it.next(), None);
    assert_eq!(it.next(), None);
}

#[test]
fn sl_equal_keys_yield_the_last_of_the_highest_level() {
    // Towers: 3 levels for the first entry, then 1, 2, 2 and 1 levels.
    let mut list = BestTransactionLog::<usize, &str>::new_empty(2);
    list.append_with_level(1, "a", 0);
    list.append_with_level(5, "b", 0);
    list.append_with_level(5, "c", 1);
    list.append_with_level(5, "d", 1);
    list.append_with_level(5, "e", 0);
    assert_eq!(list.find(5), Some("d"));
    assert_eq!(list.find(1), Some("a"));

    // The lookup starts at the highest level that holds a second entry, so
    // the full tower of the first entry does not set it apart.
    let mut list = BestTransactionLog::<usize, &str>::new_empty(4);
    list.append_with_level(5, "a", 0);
    list.append_with_level(5, "b", 0);
    list.append_with_level(5, "c", 0);
    assert_eq!(list.find(5), Some("c"));
    let mut list = BestTransactionLog::<usize, &str>::new_empty(4);
    list.append_with_level(5, "a", 0);
    list.append_with_level(5, "b", 2);
    list.append_with_level(5, "c", 0);
    assert_eq!(list.find(5), Some("b"));
}

#[test]
fn sl_keys_by_level() {
    let list = sample();
    assert_eq!(
        list.keys_by_level(),
        vec![
            vec![1],
            vec![1],
            vec![1, 13],
            vec![1, 6, 13],
            vec![1, 6, 7, 13],
            vec![1, 4, 6, 7, 11, 13],
        ]
    );
    let empty = BestTransactionLog::<usize, &str>::new_empty(5);
    assert_eq!(empty.keys_by_level(), Vec::<Vec<usize>>::new());
    let mut single = BestTransactionLog::<usize, &str>::new_empty(0);
    single.append(9, "Nine");
    assert_eq!(single.keys_by_level(), vec![vec![9]]);
}

#[test]
fn sl_clone_is_a_separate_log() {
    let mut list = sample();
    let copy = list.clone();
    list.append_with_level(20, "Twenty", 1);
    assert_eq!(list.length, 7);
    assert_eq!(copy.length, 6);
    assert_eq!(list.find(20), Some("Twenty"));
    assert_eq!(copy.find(20), None);
    assert_eq!(copy.find(13), Some("Thirteen"));
}

#[test]
fn sl_keys_out_of_order_are_kept_in_append_order() {
    let keys = [5usize, 3, 9, 1, 9, 2];
    for level in 0..=2usize {
        let mut list = BestTransactionLog::<usize, usize>::new_empty(2);
        for (at, key) in keys.iter().enumerate() {
            list.append_with_level(*key, at, (at + level) % 3);
        }
        assert_eq!(list.length, 6);
        // What a lookup yields belongs to the key, though it may miss a key.
        for key in 0..12usize {
            if let Some(at) = list.find(key) {
                assert_eq!(keys[at], key);
            }
        }
        let entries = drain(list.into_iter());
        assert_eq!(entries, vec![(5, 0), (3, 1), (9, 2), (1, 3), (9, 4), (2, 5)]);
    }
}

#[test]
fn sl_drawn_heights_vary() {
    let mut list = BestTransactionLog::<usize, &str>::new_empty(3);
    for key in 0..1000usize {
        list.append(key, "x");
    }
    // A fair coin puts about half of the entries on level 1, and neither all
    // of them nor the first one alone.
    let on_level_one = keys_on_level(&list, 1).len();
    assert!(on_level_one > 1);
    assert!(on_level_one < 1000);
    // No tower reaches above the highest level.
    let rows = list.keys_by_level();
    assert_eq!(rows.len(), 4);
    assert_eq!(rows[3].len(), 1000);
}

#[test]
fn sl_tower_climbs_on_heads_below_the_highest_level() {
    assert!(climbs(true, 0, 1));
    assert!(climbs(true, 4, 5));
    assert!(!climbs(true, 5, 5));
    assert!(!climbs(true, 0, 0));
    assert!(!climbs(false, 0, 5));
    assert!(!climbs(false, 5, 5));
    assert!(climbs(true, usize::MAX - 1, usize::MAX));
    assert!(!climbs(true, usize::MAX, usize::MAX));
}
