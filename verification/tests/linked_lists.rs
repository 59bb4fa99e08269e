use data_structures::doubly_linked_list::BetterTransactionLog;
use data_structures::singly_linked_list::TransactionLog;

#[test]
fn sll() {
    let mut list = TransactionLog::<&str>::new_empty();

    assert_eq!(list.pop(), None);
    list.append("One");
    list.append("Two");
    list.append("Three");

    assert_eq!(list.pop(), Some("One"));
    assert_eq!(list.pop(), Some("Two"));

    list.append("Four");
    list.append("Five");
    assert_eq!(list.pop(), Some("Three"));
    assert_eq!(list.pop(), Some("Four"));
    assert_eq!(list.pop(), Some("Five"));

    assert_eq!(list.pop(), None);
}

#[test]
fn dll() {
    let mut list = BetterTransactionLog::<&str>::new_empty();
    assert_eq!(list.pop_bwd(), None);
    assert_eq!(list.pop_fwd(), None);
    assert!(list.peek_fwd().is_none());
    assert!(list.peek_bwd().is_none());

    list.append_fwd("One");
    list.append_bwd("Two");

    assert_eq!(list.pop_bwd(), Some("Two"));
    assert_eq!(list.pop_fwd(), Some("One"));

    list.append_bwd("Three");
    list.append_fwd("Two");
    list.append_bwd("Four");
    list.append_fwd("One");

    assert_eq!(&*list.peek_fwd().unwrap(), &"One");
    assert_eq!(&*list.peek_bwd().unwrap(), &"Four");

    assert_eq!(list.pop_bwd(), Some("Four"));
    assert_eq!(list.pop_fwd(), Some("One"));
    assert_eq!(list.pop_bwd(), Some("Three"));
    assert_eq!(list.pop_fwd(), Some("Two"));
    assert_eq!(list.pop_bwd(), None);
    assert_eq!(list.pop_fwd(), None);
}

#[test]
fn sll_length_follows_appends_and_pops() {
    let mut list = TransactionLog::<u32>::new_empty();
    assert_eq!(list.length, 0);
    list.append(1);
    list.append(2);
    assert_eq!(list.length, 2);
    assert_eq!(list.pop(), Some(1));
    assert_eq!(list.length, 1);
    assert_eq!(list.pop(), Some(2));
    assert_eq!(list.length, 0);
    assert_eq!(list.pop(), None);
    assert_eq!(list.length, 0);
}

#[test]
fn sll_is_first_in_first_out_while_slots_are_used_again() {
    let mut list = TransactionLog::<String>::new_empty();
    let mut next_in = 0u32;
    let mut next_out = 0u32;
    for round in 0..200u32 {
        for _ in 0..(round % 7 + 1) {
            list.append(format!("entry {}", next_in));
            next_in += 1;
        }
        for _ in 0..(round % 5 + 1) {
            if next_out < next_in {
                assert_eq!(list.pop(), Some(format!("entry {}", next_out)));
                next_out += 1;
            } else {
                assert_eq!(list.pop(), None);
            }
        }
        assert_eq!(list.length, (next_in - next_out) as u64);
    }
    while next_out < next_in {
        assert_eq!(list.pop(), Some(format!("entry {}", next_out)));
        next_out += 1;
    }
    assert_eq!(list.pop(), None);
}

#[test]
fn dll_length_follows_appends_and_pops() {
    let mut list = BetterTransactionLog::<u32>::new_empty();
    assert_eq!(list.length, 0);
    list.append_fwd(2);
    list.append_fwd(1);
    list.append_bwd(3);
    assert_eq!(list.length, 3);
    assert_eq!(list.peek_fwd(), Some(&1));
    assert_eq!(list.peek_bwd(), Some(&3));
    assert_eq!(list.length, 3);
    assert_eq!(list.pop_bwd(), Some(3));
    assert_eq!(list.pop_fwd(), Some(1));
    assert_eq!(list.length, 1);
    assert_eq!(list.peek_fwd(), Some(&2));
    assert_eq!(list.peek_bwd(), Some(&2));
    assert_eq!(list.pop_fwd(), Some(2));
    assert_eq!(list.length, 0);
}

#[test]
fn dll_agrees_with_a_deque_while_slots_are_used_again() {
    let mut list = BetterTransactionLog::<u32>::new_empty();
    let mut model = std::collections::VecDeque::new();
    let mut seed = 12345u32;
    for step in 0..3000u32 {
        seed = seed.wrapping_mul(1664525).wrapping_add(1013904223);
        match (seed >> 16) % 5 {
            0 | 1 => {
                list.append_fwd(step);
                model.push_front(step);
            }
            2 => {
                list.append_bwd(step);
                model.push_back(step);
            }
            3 => assert_eq!(list.pop_fwd(), model.pop_front()),
            _ => assert_eq!(list.pop_bwd(), model.pop_back()),
        }
        assert_eq!(list.length, model.len() as u64);
        assert_eq!(list.peek_fwd(), model.front());
        assert_eq!(list.peek_bwd(), model.back());
    }
}

#[test]
fn dll_iter_walks_from_the_front() {
    let mut list = BetterTransactionLog::<&str>::new_empty();
    list.append_bwd("Two");
    list.append_bwd("Three");
    list.append_fwd("One");
    let mut it = list.iter();
    assert_eq!(it.next(), Some("One"));
    assert_eq!(it.next(), Some("Two"));
    assert_eq!(it.next(), Some("Three"));
    assert_eq!(it.next(), None);
    assert_eq!(it.next(), None);
    assert_eq!(it.next_back(), None);
}

#[test]
fn dll_back_iter_walks_from_the_back() {
    let mut list = BetterTransactionLog::<&str>::new_empty();
    list.append_bwd("Two");
    list.append_bwd("Three");
    list.append_fwd("One");
    let mut it = list.back_iter();
    assert_eq!(it.next_back(), Some("Three"));
    assert_eq!(it.next_back(), Some("Two"));
    assert_eq!(it.next_back(), Some("One"));
    assert_eq!(it.next_back(), None);
    assert_eq!(it.next(), None);
}

#[test]
fn dll_cursor_steps_both_ways() {
    let mut list = BetterTransactionLog::<u8>::new_empty();
    for value in 1..=4u8 {
        list.append_bwd(value);
    }
    let mut it = list.iter();
    assert_eq!(it.next(), Some(1));
    assert_eq!(it.next(), Some(2));
    assert_eq!(it.next_back(), Some(3));
    assert_eq!(it.next_back(), Some(2));
    assert_eq!(it.next(), Some(1));
    assert_eq!(it.next_back(), Some(2));
    assert_eq!(it.next_back(), Some(1));
    assert_eq!(it.next_back(), None);
}

#[test]
fn dll_iterators_of_an_empty_log() {
    assert_eq!(BetterTransactionLog::<u8>::new_empty().iter().next(), None);
    assert_eq!(BetterTransactionLog::<u8>::new_empty().back_iter().next_back(), None);
}

#[test]
fn sll_clone_is_a_separate_log() {
    let mut list = TransactionLog::<u8>::new_empty();
    list.append(1);
    list.append(2);
    let mut copy = list.clone();
    assert_eq!(list.pop(), Some(1));
    list.append(3);
    assert_eq!(copy.pop(), Some(1));
    assert_eq!(copy.pop(), Some(2));
    assert_eq!(copy.pop(), None);
    assert_eq!(list.pop(), Some(2));
    assert_eq!(list.pop(), Some(3));
}

#[test]
fn dll_clone_is_a_separate_log() {
    let mut list = BetterTransactionLog::<u8>::new_empty();
    list.append_bwd(1);
    list.append_bwd(2);
    let mut copy = list.clone();
    assert_eq!(list.pop_bwd(), Some(2));
    assert_eq!(copy.pop_bwd(), Some(2));
    assert_eq!(copy.pop_bwd(), Some(1));
    assert_eq!(list.pop_fwd(), Some(1));
}
