use data_structures::dynamic_array::TimestampSaver;

#[test]
fn da() {
    let mut array = TimestampSaver::new_empty();
    assert_eq!(array.at(1), None);

    array.append("One");
    array.append("Two");

    assert_eq!(array.at(0), Some("One"));
    assert_eq!(array.at(1), Some("Two"));
}

#[test]
fn da_empty() {
    let mut array = TimestampSaver::<u64>::new_empty();
    assert_eq!(array.length, 0);
    assert_eq!(array.at(0), None);
    assert_eq!(array.at(7), None);
    assert_eq!(array.at(8), None);
    assert_eq!(array.at(usize::MAX), None);
    assert_eq!(array.into_iter().next(), None);
}

#[test]
fn da_grows_past_its_first_buffer() {
    let mut array = TimestampSaver::<u64>::new_empty();
    for i in 0..1000u64 {
        assert_eq!(array.length, i as usize);
        assert_eq!(array.at(i as usize), None);
        array.append(i * i);
        assert_eq!(array.at(i as usize), Some(i * i));
    }
    assert_eq!(array.length, 1000);
    for i in 0..1000u64 {
        assert_eq!(array.at(i as usize), Some(i * i));
    }
    assert_eq!(array.at(1000), None);
}

#[test]
fn da_buffer_grows_by_half() {
    // Eight slots at first; the ninth item makes twelve, the thirteenth
    // eighteen.
    let mut array = TimestampSaver::<u8>::new_empty();
    for i in 0..13u8 {
        array.append(i);
    }
    let mut it = array.into_iter();
    let mut slots = 0;
    for i in 0..13u8 {
        assert_eq!(it.next(), Some(i));
        slots += 1;
    }
    assert_eq!(it.next(), None);
    // A cursor on an empty slot yields nothing and still moves on.
    slots += 1;
    while slots < 18 {
        assert_eq!(it.next(), None);
        slots += 1;
    }
    // Past the last slot the cursor stays; stepping back yields nothing.
    assert_eq!(it.next(), None);
    assert_eq!(it.next_back(), None);
}

#[test]
fn da_iterates_in_append_order() {
    let mut array = TimestampSaver::<&str>::new_empty();
    array.append("One");
    array.append("Two");
    array.append("Three");
    let mut it = array.into_iter();
    assert_eq!(it.next(), Some("One"));
    assert_eq!(it.next(), Some("Two"));
    assert_eq!(it.next(), Some("Three"));
    assert_eq!(it.next(), None);
}

#[test]
fn da_cursor_steps_back_and_wraps() {
    let mut array = TimestampSaver::<u8>::new_empty();
    for i in 0..8u8 {
        array.append(i + 1);
    }
    let mut it = array.into_iter();
    assert_eq!(it.next(), Some(1));
    assert_eq!(it.next(), Some(2));
    assert_eq!(it.next_back(), Some(3));
    assert_eq!(it.next_back(), Some(2));
    assert_eq!(it.next_back(), Some(1));
    // From the first slot the cursor goes to the last one.
    assert_eq!(it.next_back(), Some(8));
    assert_eq!(it.next_back(), Some(7));
}
