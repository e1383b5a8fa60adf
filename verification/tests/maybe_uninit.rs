use std::sync::Arc;
use thread_local::MaybeUninit;

#[test]
fn value_is_read_and_written() {
    let mut storage = MaybeUninit::new(5);
    assert_eq!(storage.as_ptr(), Some(&5));
    *storage.as_mut_ptr().unwrap() = 6;
    assert_eq!(storage.as_ptr(), Some(&6));
    assert_eq!(storage.assume_init(), 6);
}

#[test]
fn no_value() {
    let mut storage: MaybeUninit<u8> = MaybeUninit::uninit();
    assert_eq!(storage.as_ptr(), None);
    assert_eq!(storage.as_mut_ptr(), None);
}

#[test]
fn value_is_not_dropped_with_the_storage() {
    let value = Arc::new(());
    drop(MaybeUninit::new(Arc::clone(&value)));
    assert_eq!(Arc::strong_count(&value), 2);
    drop(MaybeUninit::new(Arc::clone(&value)).assume_init());
    assert_eq!(Arc::strong_count(&value), 2);
}
