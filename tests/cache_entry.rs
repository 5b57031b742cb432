use std::sync::{Arc, Mutex};

use assets_manager::entry::CacheEntry;

#[derive(Clone)]
struct DropCounter(Arc<Mutex<usize>>);

impl Drop for DropCounter {
    fn drop(&mut self) {
        let mut count = self.0.lock().unwrap();
        *count += 1;
    }
}

#[test]
fn drop_inner() {
    let count = DropCounter(Arc::new(Mutex::new(0)));

    let entry_1 = CacheEntry::new(count.clone(), 1);
    let entry_2 = CacheEntry::new(count.clone(), 2);
    assert_eq!(*count.0.lock().unwrap(), 0);
    drop(entry_1);
    assert_eq!(*count.0.lock().unwrap(), 1);
    drop(entry_2);
    assert_eq!(*count.0.lock().unwrap(), 2);
}

#[test]
fn read() {
    let val = rand::random::<i32>();

    let entry = CacheEntry::new(val, 0);
    let _guard = entry.get_ref();

    assert_eq!(*entry.read(), val);
}

#[test]
fn write() {
    let x = rand::random::<i32>();
    let y = rand::random::<i32>();

    let mut entry = CacheEntry::new(x, 0);
    let before = entry.get_ref();
    let guard = entry.write(y);
    assert_eq!(*entry.read(), y);
    assert!(guard.ptr_eq(&before));
    let guard = entry.get_ref();
    assert!(guard.ptr_eq(&before));
    assert_eq!(*entry.read(), y);
}

#[test]
fn ptr_eq() {
    let x = rand::random::<i32>();

    let entry = CacheEntry::new(x, 0);
    let ref_1 = entry.get_ref();
    let ref_2 = entry.get_ref();
    assert!(ref_1.ptr_eq(&ref_2));
    let other = CacheEntry::new(x, 1);
    assert!(!ref_1.ptr_eq(&other.get_ref()));
}

#[test]
fn into_inner_returns_value() {
    let entry = CacheEntry::new(String::from("kept"), 3);
    assert_eq!(entry.into_inner(), "kept");
}
