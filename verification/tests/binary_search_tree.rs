use std::cell::RefCell;
use std::fmt::Debug;

use rand::seq::SliceRandom;

use data_structures::binary_search_tree::{DeviceRegistry, IoTDevice};

fn new_device_with_id<I: Debug + Copy, A: From<String>>(id: I) -> IoTDevice<I, A> {
    IoTDevice::new(
        id,
        format!("Address is {:?}", id),
        format!("Path is {:?}", id),
    )
}

#[test]
fn bst() {
    let mut tree = DeviceRegistry::<usize, &str>::new_empty();
    assert_eq!(tree.find(10), None);

    tree.add(IoTDevice::new(1, "One Add", "One Path"));
    tree.add(IoTDevice::new(2, "Two Add", "Two Path"));
    tree.add(IoTDevice::new(3, "Three Add", "Three Path"));

    assert_eq!(tree.find(2), Some(IoTDevice::new(2, "Two Add", "Two Path")));
    assert_eq!(
        tree.find(3),
        Some(IoTDevice::new(3, "Three Add", "Three Path"))
    );
}

#[test]
fn bst_walk_in_order() {
    let len = 10;
    let mut tree = DeviceRegistry::<usize, String>::new_empty();
    let mut items: Vec<IoTDevice<usize, String>> =
        (0..len).map(|id| new_device_with_id(id)).collect();

    let mut rng = rand::thread_rng();
    items.shuffle(&mut rng);

    for item in items.iter() {
        tree.add(item.clone());
    }

    assert_eq!(tree.length, len);

    let v: RefCell<Vec<IoTDevice<usize, String>>> = RefCell::new(Vec::new());
    tree.walk(|n| v.borrow_mut().push(n.clone()));

    let mut items = items;

    items.sort_by(|a, b| b.id.cmp(&a.id));
    assert_eq!(v.into_inner(), items);
}

#[test]
fn bst_device_new_converts_address_and_path() {
    let device: IoTDevice<u8, String> = IoTDevice::new(7, "address", String::from("path"));
    assert_eq!(device.id, 7);
    assert_eq!(device.address, "address");
    assert_eq!(device.path, "path");
}

#[test]
fn bst_devices_compare_by_id_and_address_only() {
    let a: IoTDevice<u8, &str> = IoTDevice::new(1, "address", "one path");
    let b: IoTDevice<u8, &str> = IoTDevice::new(1, "address", "another path");
    let c: IoTDevice<u8, &str> = IoTDevice::new(1, "elsewhere", "one path");
    let d: IoTDevice<u8, &str> = IoTDevice::new(2, "address", "one path");
    assert!(a == b);
    assert!(a != c);
    assert!(a != d);
}

#[test]
fn bst_clone_keeps_every_field() {
    let a: IoTDevice<u8, String> = IoTDevice::new(1, "address", "path");
    let b = a.clone();
    assert_eq!(b.id, 1);
    assert_eq!(b.address, "address");
    assert_eq!(b.path, "path");
}

#[test]
fn bst_find_absent_ids() {
    let mut tree = DeviceRegistry::<usize, &str>::new_empty();
    assert_eq!(tree.length, 0);
    for id in [50usize, 20, 80, 10, 30, 70, 90] {
        tree.add(IoTDevice::new(id, "address", "path"));
    }
    assert_eq!(tree.length, 7);
    for id in [50usize, 20, 80, 10, 30, 70, 90] {
        assert_eq!(tree.find(id), Some(IoTDevice::new(id, "address", "path")));
    }
    for id in [0usize, 15, 25, 45, 55, 75, 85, 95] {
        assert_eq!(tree.find(id), None);
    }
}

#[test]
fn bst_find_yields_the_device_added_first() {
    let mut tree = DeviceRegistry::<usize, &str>::new_empty();
    tree.add(IoTDevice::new(5, "first", "p"));
    tree.add(IoTDevice::new(3, "x", "p"));
    tree.add(IoTDevice::new(5, "second", "p"));
    tree.add(IoTDevice::new(8, "y", "p"));
    tree.add(IoTDevice::new(5, "third", "p"));
    let found = tree.find(5).unwrap();
    assert_eq!(found.address, "first");
    assert_eq!(tree.length, 5);
}

#[test]
fn bst_walk_meets_ids_in_falling_order() {
    let mut tree = DeviceRegistry::<usize, &str>::new_empty();
    tree.add(IoTDevice::new(5, "first", "p"));
    tree.add(IoTDevice::new(3, "x", "p"));
    tree.add(IoTDevice::new(5, "second", "p"));
    tree.add(IoTDevice::new(8, "y", "p"));
    tree.add(IoTDevice::new(5, "third", "p"));
    tree.add(IoTDevice::new(1, "z", "p"));
    let seen: RefCell<Vec<(usize, &str)>> = RefCell::new(Vec::new());
    tree.walk(|d| seen.borrow_mut().push((d.id, d.address)));
    // Of equal ids the one added later comes first.
    assert_eq!(
        seen.into_inner(),
        vec![(8, "y"), (5, "third"), (5, "second"), (5, "first"), (3, "x"), (1, "z")]
    );
}

#[test]
fn bst_walk_of_an_empty_registry_calls_nothing() {
    let tree = DeviceRegistry::<usize, &str>::new_empty();
    let calls = RefCell::new(0);
    tree.walk(|_| *calls.borrow_mut() += 1);
    assert_eq!(calls.into_inner(), 0);
}
