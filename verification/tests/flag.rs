use crossbeam_utils::Backoff;
use thread_local::flag::{Flag, Tries};

#[test]
fn flag_is_set_by_one_at_a_time() {
    let flag = Flag::new();
    let mut first = Tries::new(&flag);
    let mut second = Tries::new(&flag);
    assert!(first.try_set());
    assert!(!first.try_set());
    let backoff = Backoff::new();
    // Long enough for the pauses to reach their longest.
    for _ in 0..20 {
        assert!(!second.try_set());
        second.pause(&backoff);
    }
    assert!(backoff.is_completed());
    flag.clear();
    assert!(second.try_set());
    assert!(!first.try_set());
}
