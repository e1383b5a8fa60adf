use thread_local::{CurrentThread, Mutex, Thread, ThreadIdManager, ValidManager};

#[test]
fn test_thread() {
    let thread = Thread::new(0);
    assert_eq!(thread.bucket, 0);
    assert_eq!(thread.bucket_size(), 1);
    assert_eq!(thread.index, 0);

    let thread = Thread::new(1);
    assert_eq!(thread.bucket, 1);
    assert_eq!(thread.bucket_size(), 2);
    assert_eq!(thread.index, 0);

    let thread = Thread::new(2);
    assert_eq!(thread.bucket, 1);
    assert_eq!(thread.bucket_size(), 2);
    assert_eq!(thread.index, 1);

    let thread = Thread::new(3);
    assert_eq!(thread.bucket, 2);
    assert_eq!(thread.bucket_size(), 4);
    assert_eq!(thread.index, 0);

    let thread = Thread::new(19);
    assert_eq!(thread.bucket, 4);
    assert_eq!(thread.bucket_size(), 16);
    assert_eq!(thread.index, 4);
}

#[test]
fn places_lead_back_to_ids() {
    for id in 0..300 {
        let thread = Thread::new(id);
        assert!(thread.index < thread.bucket_size());
        assert_eq!(thread.id(), id);
    }
    let thread = Thread::new(usize::MAX - 1);
    assert_eq!(thread.bucket, usize::BITS as usize - 1);
    assert_eq!(thread.bucket_size(), 1 << (usize::BITS - 1));
    assert_eq!(thread.index, thread.bucket_size() - 1);
    assert_eq!(thread.id(), usize::MAX - 1);
}

#[test]
fn smallest_unused_id_is_allocated() {
    let mut manager = ThreadIdManager::new();
    for id in 0..6 {
        assert_eq!(manager.allocate(), id);
    }
    manager.free(4);
    manager.free(1);
    manager.free(5);
    manager.free(2);
    assert_eq!(manager.allocate(), 1);
    manager.free(0);
    assert_eq!(manager.allocate(), 0);
    assert_eq!(manager.allocate(), 2);
    assert_eq!(manager.allocate(), 4);
    assert_eq!(manager.allocate(), 5);
    assert_eq!(manager.allocate(), 6);
    assert!(!manager.is_exhausted());
}

#[test]
fn id_given_back_twice_is_allocated_twice() {
    let mut manager = ThreadIdManager::new();
    assert_eq!(manager.allocate(), 0);
    manager.free(0);
    manager.free(0);
    assert_eq!(manager.allocate(), 0);
    assert_eq!(manager.allocate(), 0);
    assert_eq!(manager.allocate(), 1);
}

#[test]
fn id_is_allocated_once_and_recycled() {
    let mut manager = ThreadIdManager::new();
    let mut first = CurrentThread::new();
    let mut second = CurrentThread::new();
    assert_eq!(first.try_get(), None);
    let thread = first.get(&mut manager);
    assert_eq!(thread, Thread::new(0));
    assert_eq!(first.get(&mut manager), thread);
    assert_eq!(first.try_get(), Some(thread));
    assert_eq!(second.get(&mut manager), Thread::new(1));
    first.release(&mut manager);
    assert_eq!(first.try_get(), None);
    // A second exit gives nothing back.
    first.release(&mut manager);
    let mut third = CurrentThread::new();
    assert_eq!(third.get(&mut manager), thread);
    assert_eq!(first.get(&mut manager), Thread::new(2));
}

#[test]
fn shared_manager_is_locked_only_when_needed() {
    let manager: Mutex<ThreadIdManager, ValidManager> = Mutex::new(ThreadIdManager::new());
    let mut first = CurrentThread::new();
    let mut second = CurrentThread::new();
    assert_eq!(first.get_shared(&manager), Some(Thread::new(0)));
    let guard = manager.try_lock().unwrap();
    // The id is known, and there is none to give back.
    assert_eq!(first.get_shared(&manager), Some(Thread::new(0)));
    second.release_shared(&manager);
    assert_eq!(second.try_get(), None);
    guard.unlock();
    first.release_shared(&manager);
    assert_eq!(first.try_get(), None);
    assert_eq!(second.get_shared(&manager), Some(Thread::new(0)));
    assert_eq!(first.get_shared(&manager), Some(Thread::new(1)));
    assert!(manager.try_lock().is_some());
}

#[test]
fn ids_in_use() {
    let mut manager = ThreadIdManager::new();
    assert!(!manager.is_in_use(0));
    for _ in 0..4 {
        manager.allocate();
    }
    manager.free(2);
    manager.free(0);
    assert_eq!([0, 1, 2, 3, 4].map(|id| manager.is_in_use(id)), [false, true, false, true, false]);
    assert!(!manager.is_in_use(usize::MAX));
}

#[test]
fn id_of_another_manager_is_not_given_back() {
    let manager: Mutex<ThreadIdManager, ValidManager> = Mutex::new(ThreadIdManager::new());
    let mut first = CurrentThread::new();
    let mut stranger = CurrentThread::new();
    assert_eq!(stranger.get(&mut ThreadIdManager::new()), Thread::new(0));
    stranger.release_shared(&manager);
    assert_eq!(stranger.try_get(), None);
    assert_eq!(first.get_shared(&manager), Some(Thread::new(0)));
    assert_eq!(stranger.get_shared(&manager), Some(Thread::new(1)));
}
