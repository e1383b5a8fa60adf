use std::sync::atomic::AtomicUsize;
use std::sync::atomic::Ordering::Relaxed;
use std::sync::Arc;
use thread_local::{CachedThreadLocal, CurrentThread, ThreadIdManager, ThreadLocal};

fn make_create() -> Arc<dyn Fn() -> usize + Send + Sync> {
    let count = AtomicUsize::new(0);
    Arc::new(move || count.fetch_add(1, Relaxed))
}

/// The id that the manager gives to a thread that has just started.
fn start(manager: &mut ThreadIdManager) -> (CurrentThread, usize) {
    let mut current = CurrentThread::new();
    let id = current.get(manager).id();
    (current, id)
}

#[test]
fn same_thread() {
    let create = make_create();
    let mut manager = ThreadIdManager::new();
    let (_, id) = start(&mut manager);
    let mut tls = ThreadLocal::new();
    assert_eq!(None, tls.get(Some(id)));
    assert_eq!(
        "ThreadLocal { local_data: None }",
        ThreadLocal::<usize>::fmt(&format!("{:?}", tls.get(Some(id))))
    );
    assert_eq!(0, *tls.get_or(id, || create()));
    assert_eq!(Some(&0), tls.get(Some(id)));
    assert_eq!(0, *tls.get_or(id, || create()));
    assert_eq!(Some(&0), tls.get(Some(id)));
    assert_eq!(0, *tls.get_or(id, || create()));
    assert_eq!(Some(&0), tls.get(Some(id)));
    assert_eq!(
        "ThreadLocal { local_data: Some(0) }",
        ThreadLocal::<usize>::fmt(&format!("{:?}", tls.get(Some(id))))
    );
    tls.clear();
    assert_eq!(None, tls.get(Some(id)));
}

#[test]
fn same_thread_cached() {
    let create = make_create();
    let mut manager = ThreadIdManager::new();
    let (_, id) = start(&mut manager);
    let mut tls = CachedThreadLocal::new();
    assert_eq!(None, tls.get(Some(id)));
    assert_eq!(
        "ThreadLocal { local_data: None }",
        CachedThreadLocal::<usize>::fmt(&format!("{:?}", tls.get(Some(id))))
    );
    assert_eq!(0, *tls.get_or(id, || create()));
    assert_eq!(Some(&0), tls.get(Some(id)));
    assert_eq!(0, *tls.get_or(id, || create()));
    assert_eq!(Some(&0), tls.get(Some(id)));
    assert_eq!(0, *tls.get_or(id, || create()));
    assert_eq!(Some(&0), tls.get(Some(id)));
    assert_eq!(
        "ThreadLocal { local_data: Some(0) }",
        CachedThreadLocal::<usize>::fmt(&format!("{:?}", tls.get(Some(id))))
    );
    tls.clear();
    assert_eq!(None, tls.get(Some(id)));
}

#[test]
fn different_thread() {
    let create = make_create();
    let mut manager = ThreadIdManager::new();
    let (_first, id) = start(&mut manager);
    let mut tls = ThreadLocal::new();
    assert_eq!(None, tls.get(Some(id)));
    assert_eq!(0, *tls.get_or(id, || create()));
    assert_eq!(Some(&0), tls.get(Some(id)));

    let (mut second, id2) = start(&mut manager);
    assert_eq!(None, tls.get(Some(id2)));
    assert_eq!(1, *tls.get_or(id2, || create()));
    assert_eq!(Some(&1), tls.get(Some(id2)));
    second.release(&mut manager);

    assert_eq!(Some(&0), tls.get(Some(id)));
    assert_eq!(0, *tls.get_or(id, || create()));
}

#[test]
fn different_thread_cached() {
    let create = make_create();
    let mut manager = ThreadIdManager::new();
    let (_first, id) = start(&mut manager);
    let mut tls = CachedThreadLocal::new();
    assert_eq!(None, tls.get(Some(id)));
    assert_eq!(0, *tls.get_or(id, || create()));
    assert_eq!(Some(&0), tls.get(Some(id)));

    let (mut second, id2) = start(&mut manager);
    assert_eq!(None, tls.get(Some(id2)));
    assert_eq!(1, *tls.get_or(id2, || create()));
    assert_eq!(Some(&1), tls.get(Some(id2)));
    second.release(&mut manager);

    assert_eq!(Some(&0), tls.get(Some(id)));
    assert_eq!(0, *tls.get_or(id, || create()));
}

#[test]
fn iter() {
    let mut manager = ThreadIdManager::new();
    let (_first, id) = start(&mut manager);
    let mut tls = ThreadLocal::new();
    tls.get_or(id, || Box::new(1));
    let (_second, id2) = start(&mut manager);
    tls.get_or(id2, || Box::new(2));
    let (_third, id3) = start(&mut manager);
    tls.get_or(id3, || Box::new(3));

    let mut v: Vec<i32> = Vec::new();
    let mut iter = tls.iter_mut();
    assert_eq!(iter.size_hint(), (3, Some(3)));
    while let Some(x) = iter.next() {
        v.push(**x);
    }
    assert_eq!(iter.size_hint(), (0, Some(0)));
    v.sort_unstable();
    assert_eq!(vec![1, 2, 3], v);
    let mut v: Vec<i32> = Vec::new();
    let mut iter = tls.into_iter();
    assert_eq!(iter.size_hint(), (3, Some(3)));
    while let Some(x) = iter.next() {
        v.push(*x);
    }
    assert_eq!(iter.size_hint(), (0, Some(0)));
    v.sort_unstable();
    assert_eq!(vec![1, 2, 3], v);
}

#[test]
fn iter_cached() {
    let mut manager = ThreadIdManager::new();
    let (_first, id) = start(&mut manager);
    let mut tls = CachedThreadLocal::new();
    tls.get_or(id, || Box::new(1));
    let (_second, id2) = start(&mut manager);
    tls.get_or(id2, || Box::new(2));
    let (_third, id3) = start(&mut manager);
    tls.get_or(id3, || Box::new(3));

    let mut v: Vec<i32> = Vec::new();
    let mut iter = tls.iter_mut();
    assert_eq!(iter.size_hint(), (3, Some(3)));
    while let Some(x) = iter.next() {
        v.push(**x);
    }
    assert_eq!(iter.size_hint(), (0, Some(0)));
    v.sort_unstable();
    assert_eq!(vec![1, 2, 3], v);
    let mut v: Vec<i32> = Vec::new();
    let mut iter = tls.into_iter();
    assert_eq!(iter.size_hint(), (3, Some(3)));
    while let Some(x) = iter.next() {
        v.push(*x);
    }
    assert_eq!(iter.size_hint(), (0, Some(0)));
    v.sort_unstable();
    assert_eq!(vec![1, 2, 3], v);
}

#[test]
fn counters_add_up() {
    let mut manager = ThreadIdManager::new();
    let mut tls: ThreadLocal<u32> = ThreadLocal::new();
    for _ in 0..5 {
        let (mut current, id) = start(&mut manager);
        tls.get_or(id, || 0);
        let mut iter = tls.iter_mut();
        *iter.next().unwrap() += 1;
        current.release(&mut manager);
    }
    let mut total = 0;
    let mut iter = tls.into_iter();
    while let Some(count) = iter.next() {
        total += count;
    }
    assert_eq!(total, 5);
}

#[test]
fn thread_without_id_has_no_element() {
    let mut tls: ThreadLocal<u32> = ThreadLocal::new();
    assert_eq!(tls.get(None), None);
    tls.get_or(0, || 5);
    assert_eq!(tls.get(None), None);
    let mut tls: CachedThreadLocal<u32> = CachedThreadLocal::new();
    tls.get_or(0, || 5);
    assert_eq!(tls.get(None), None);
}

#[test]
fn failed_creation_adds_nothing() {
    let mut tls: ThreadLocal<u32> = ThreadLocal::new();
    assert_eq!(tls.get_or_try(3, || Err("no")), Err("no"));
    assert_eq!(tls.get(Some(3)), None);
    assert_eq!(tls.get_or_try(3, || Ok::<u32, &str>(8)), Ok(&8));
    // Nothing is created, so no room is needed.
    assert_eq!(tls.get_or_try(usize::MAX, || Err("no")), Err("no"));
    // The element is there now, so nothing is created.
    assert_eq!(tls.get_or_try(3, || Err("no")), Ok(&8));

    let mut tls: CachedThreadLocal<u32> = CachedThreadLocal::new();
    assert_eq!(tls.get_or_try(3, || Err("no")), Err("no"));
    assert_eq!(tls.get(Some(3)), None);
    assert_eq!(tls.get_or_try(4, || Ok::<u32, &str>(9)), Ok(&9));
    assert_eq!(tls.get_or_try(3, || Err("no")), Err("no"));
    assert_eq!(tls.get_or_try(3, || Ok::<u32, &str>(8)), Ok(&8));
    assert_eq!(tls.get_or_try(3, || Err("no")), Ok(&8));
    assert_eq!(tls.get_or_try(4, || Err("no")), Ok(&9));
}

#[test]
fn defaults() {
    let mut tls: ThreadLocal<u32> = ThreadLocal::default();
    assert_eq!(*tls.get_or_default(6), 0);
    tls.get_or(7, || 3);
    assert_eq!(*tls.get_or_default(7), 3);
    let mut tls: CachedThreadLocal<String> = CachedThreadLocal::default();
    assert_eq!(*tls.get_or_default(6), "");
    assert_eq!(*tls.get_or_default(1), "");
}

#[test]
fn values_move_to_the_newest_list() {
    let mut tls: ThreadLocal<usize> = ThreadLocal::with_capacity(1);
    // Some insertions make a new list.
    for id in [0, 1, 2, 3, 4, 9, 30, 17] {
        assert_eq!(*tls.get_or(id, || id * 10), id * 10);
    }
    // The values come from the newest list first.
    let mut order = Vec::new();
    let mut iter = tls.iter_mut();
    while let Some(x) = iter.next() {
        order.push(*x);
    }
    assert_eq!(order, vec![90, 300, 170, 40, 20, 30, 10, 0]);
    // A look at a value moves it there; it is still counted once.
    assert_eq!(tls.get(Some(0)), Some(&0));
    assert_eq!(tls.get(Some(4)), Some(&40));
    assert_eq!(tls.get(Some(5)), None);
    let mut iter = tls.iter_mut();
    assert_eq!(iter.size_hint(), (8, Some(8)));
    let mut order = Vec::new();
    while let Some(x) = iter.next() {
        order.push(*x);
        *x += 1;
    }
    assert_eq!(order, vec![90, 300, 170, 0, 40, 20, 30, 10]);
    for id in [0, 1, 2, 3, 4, 9, 30, 17] {
        assert_eq!(tls.get(Some(id)), Some(&(id * 10 + 1)));
    }
}

#[test]
fn empty_capacity() {
    let mut tls: ThreadLocal<u8> = ThreadLocal::with_capacity(0);
    assert_eq!(tls.get(Some(0)), None);
    assert_eq!(tls.into_iter().next(), None);
    let mut tls: ThreadLocal<u8> = ThreadLocal::with_capacity(0);
    assert_eq!(*tls.get_or(0, || 1), 1);
    assert_eq!(*tls.get_or(1, || 2), 2);
    assert_eq!(tls.get(Some(0)), Some(&1));
}

#[test]
fn room() {
    let mut tls: ThreadLocal<u8> = ThreadLocal::new();
    // There are two empty slots, so no list has to be added.
    assert!(tls.has_room(usize::MAX));
    tls.get_or(100, || 1);
    assert!(tls.has_room(usize::MAX));
    tls.get_or(5, || 2);
    // Now there is none, and a list would have to be added.
    assert!(tls.has_room(0));
    assert!(tls.has_room(isize::MAX as usize - 1));
    assert!(!tls.has_room(isize::MAX as usize));
    assert!(!tls.has_room(usize::MAX));
    let mut tls: CachedThreadLocal<u8> = CachedThreadLocal::new();
    // The owner needs no room in a list.
    assert!(tls.has_room(usize::MAX));
    assert_eq!(*tls.get_or(usize::MAX, || 1), 1);
    assert!(tls.has_room(usize::MAX - 1));
    tls.get_or(0, || 2);
    assert!(tls.has_room(usize::MAX - 1));
    tls.get_or(1, || 3);
    assert!(tls.has_room(2));
    assert!(!tls.has_room(usize::MAX - 1));
    assert_eq!(tls.get(Some(usize::MAX)), Some(&1));
}

#[test]
fn never_reallocates_for_few_threads() {
    // A list for one of these ids would be too long for a vector.
    let ids = [usize::MAX, usize::MAX - 1, 1, usize::MAX - 2];
    let mut tls: ThreadLocal<usize> = ThreadLocal::with_capacity(4);
    for _ in 0..3 {
        for id in ids {
            assert_eq!(*tls.get_or(id, || id), id);
        }
    }
    assert!(!tls.has_room(usize::MAX - 3));
    // A fifth thread makes room, and the others keep their values.
    assert_eq!(*tls.get_or(0, || 0), 0);
    assert!(tls.has_room(usize::MAX - 3));
    for id in ids {
        assert_eq!(tls.get(Some(id)), Some(&id));
    }
    let mut iter = tls.into_iter();
    let mut values = Vec::new();
    while let Some(x) = iter.next() {
        values.push(x);
    }
    values.sort_unstable();
    assert_eq!(values, vec![0, 1, usize::MAX - 2, usize::MAX - 1, usize::MAX]);
}

#[test]
fn writes_through_an_iterator_stay() {
    let mut tls: ThreadLocal<u32> = ThreadLocal::with_capacity(1);
    let mut cached: CachedThreadLocal<u32> = CachedThreadLocal::new();
    for id in [7, 0, 3, 40] {
        tls.get_or(id, || 1);
        cached.get_or(id, || 1);
    }
    let mut iter = tls.iter_mut();
    *iter.next().unwrap() = 10;
    assert_eq!(iter.next(), Some(&mut 1));
    *iter.next().unwrap() = 30;
    let mut values: Vec<u32> = [7, 0, 3, 40].map(|id| *tls.get(Some(id)).unwrap()).to_vec();
    values.sort_unstable();
    assert_eq!(values, vec![1, 1, 10, 30]);

    let mut iter = cached.iter_mut();
    *iter.next().unwrap() = 10;
    assert_eq!(iter.next(), Some(&mut 1));
    *iter.next().unwrap() = 30;
    assert_eq!(cached.get(Some(7)), Some(&10));
    let mut values: Vec<u32> = [0, 3, 40].map(|id| *cached.get(Some(id)).unwrap()).to_vec();
    values.sort_unstable();
    assert_eq!(values, vec![1, 1, 30]);
}

#[test]
fn elements_outlive_their_threads() {
    let mut manager = ThreadIdManager::new();
    let mut tls: ThreadLocal<&str> = ThreadLocal::new();
    let (mut first, id) = start(&mut manager);
    tls.get_or(id, || "first");
    first.release(&mut manager);
    let (_second, id) = start(&mut manager);
    assert_eq!(*tls.get_or(id, || "second"), "first");
}

#[test]
fn elements_are_dropped_with_the_object() {
    let element = Arc::new(());
    let mut tls: ThreadLocal<Arc<()>> = ThreadLocal::new();
    tls.get_or(0, || Arc::clone(&element));
    tls.get_or(9, || Arc::clone(&element));
    assert_eq!(Arc::strong_count(&element), 3);
    tls.clear();
    assert_eq!(Arc::strong_count(&element), 1);
    tls.get_or(1, || Arc::clone(&element));
    tls.get_or(8, || Arc::clone(&element));
    let mut iter = tls.into_iter();
    assert!(iter.next().is_some());
    assert_eq!(Arc::strong_count(&element), 2);
    drop(iter);
    assert_eq!(Arc::strong_count(&element), 1);
}

#[test]
fn owner_comes_first() {
    let mut tls: CachedThreadLocal<u32> = CachedThreadLocal::new();
    tls.get_or(5, || 50);
    tls.get_or(0, || 1);
    tls.get_or(1, || 2);
    let mut iter = tls.iter_mut();
    assert_eq!(iter.next(), Some(&mut 50));
    *iter.next().unwrap() = 10;
    assert_eq!(iter.size_hint(), (1, Some(1)));
    *iter.next().unwrap() = 20;
    assert_eq!(iter.next(), None);
    assert_eq!(iter.next(), None);
    assert_eq!(tls.get(Some(0)), Some(&10));
    assert_eq!(tls.get(Some(1)), Some(&20));
    assert_eq!(tls.get(Some(5)), Some(&50));
    let mut iter = tls.into_iter();
    assert_eq!(iter.next(), Some(50));
    assert_eq!(iter.next(), Some(10));
    assert_eq!(iter.size_hint(), (1, Some(1)));
    assert_eq!(iter.next(), Some(20));
    assert_eq!(iter.next(), None);
}
