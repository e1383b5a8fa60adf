use thread_local::{Mutex, ThreadIdManager};

#[test]
fn lock_gives_the_value_that_was_unlocked_last() {
    let mutex: Mutex<u64> = Mutex::new(5);
    let mut guard = mutex.lock();
    assert_eq!(*guard.deref(), 5);
    *guard.deref_mut() = 7;
    guard.unlock();
    let guard = mutex.try_lock().unwrap();
    assert_eq!(*guard.deref(), 7);
    guard.unlock();
}

#[test]
fn locked_mutex_is_not_locked_again() {
    let mutex: Mutex<String> = Mutex::new(String::from("a"));
    let guard = mutex.try_lock().unwrap();
    assert!(mutex.try_lock().is_none());
    assert!(mutex.try_lock().is_none());
    guard.unlock();
    let guard = mutex.lock();
    assert!(mutex.try_lock().is_none());
    guard.unlock();
    assert!(mutex.try_lock().is_some());
}

#[test]
fn shared_manager() {
    let mutex: Mutex<ThreadIdManager> = Mutex::new(ThreadIdManager::new());
    let mut guard = mutex.lock();
    assert_eq!(guard.deref_mut().allocate(), 0);
    assert_eq!(guard.deref_mut().allocate(), 1);
    guard.unlock();
    let mut guard = mutex.lock();
    guard.deref_mut().free(0);
    assert_eq!(guard.deref_mut().allocate(), 0);
    guard.unlock();
}
