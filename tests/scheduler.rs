use wk::scheduler::{Next, Scheduler};

/// Runs the loop where unit `u` reports "not finished", waking itself, on its
/// first `pending[u]` polls; gives how often each unit was polled.
fn drive_units(pending: &[u32]) -> Vec<u32> {
    let mut s = Scheduler::new();
    for _ in pending {
        assert!(s.spawn().is_some());
    }
    let mut polls = vec![0u32; pending.len()];
    loop {
        match s.next() {
            Next::Poll(u) => {
                polls[u] += 1;
                if polls[u] <= pending[u] {
                    s.finish(u, false);
                    assert!(s.wake(u));
                } else {
                    s.finish(u, true);
                }
            }
            Next::Wait => panic!("a unit was lost"),
            Next::Done => break,
        }
    }
    for u in 0..pending.len() {
        assert!(!s.is_live(u));
    }
    polls
}

#[test]
fn pending_once_is_polled_twice() {
    assert_eq!(drive_units(&[0, 1, 0]), vec![1, 2, 1]);
}

#[test]
fn many_units_complete() {
    assert_eq!(drive_units(&[3, 0, 2, 5]), vec![4, 1, 3, 6]);
    assert_eq!(drive_units(&[]), Vec::<u32>::new());
}

#[test]
fn waits_for_a_wake_up() {
    let mut s = Scheduler::new();
    assert_eq!(s.spawn(), Some(0));
    assert!(matches!(s.next(), Next::Poll(0)));
    s.finish(0, false);
    assert!(matches!(s.next(), Next::Wait));
    assert!(s.wake(0));
    assert!(matches!(s.next(), Next::Poll(0)));
    s.finish(0, true);
    assert!(matches!(s.next(), Next::Done));
}

#[test]
fn finished_unit_is_not_polled_again() {
    let mut s = Scheduler::new();
    s.spawn();
    assert!(matches!(s.next(), Next::Poll(0)));
    assert!(s.wake(0));
    s.finish(0, true);
    assert!(matches!(s.next(), Next::Done));
    assert_eq!(s.len(), 1);
}
