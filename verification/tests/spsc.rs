use matching_engine::spsc::{Msg, SpscQueue};

#[test]
fn rejects_zero_and_non_power_of_two() {
    assert!(SpscQueue::with_capacity(0).is_err());
    assert!(SpscQueue::with_capacity(3).is_err());
    assert!(SpscQueue::with_capacity(4).is_ok());
}

#[test]
fn empty_pop_returns_none_without_corrupting() {
    let mut q = SpscQueue::with_capacity(4).unwrap();
    assert!(q.try_pop().is_none());
    assert!(q.is_empty());
    assert_eq!(q.len(), 0);
    assert!(q.try_push(Msg(7)).is_ok());
    assert_eq!(q.try_pop().unwrap().0, 7);
}

#[test]
fn push_until_full_then_reject() {
    let mut q = SpscQueue::with_capacity(2).unwrap();
    assert!(q.try_push(Msg(1)).is_ok());
    assert!(q.try_push(Msg(2)).is_ok());
    assert!(q.is_full());
    assert_eq!(q.len(), 2);
    assert!(q.try_push(Msg(3)).is_err());
    assert!(q.is_full());
    assert_eq!(q.len(), 2);
}

#[test]
fn fifo_order() {
    let mut q = SpscQueue::with_capacity(4).unwrap();
    for i in 0u64..4 {
        assert!(q.try_push(Msg(i)).is_ok());
    }
    for i in 0u64..4 {
        assert_eq!(q.try_pop().unwrap().0, i);
    }
    assert!(q.is_empty());
}

#[test]
fn wrap_around_preserves_fifo() {
    let mut q = SpscQueue::with_capacity(4).unwrap();
    for i in 0u64..100 {
        assert!(q.try_push(Msg(i)).is_ok());
        assert_eq!(q.try_pop().unwrap().0, i);
    }
    assert!(q.is_empty());
}

#[test]
fn full_then_pop_then_push_reuses_slot() {
    let mut q = SpscQueue::with_capacity(2).unwrap();
    assert!(q.try_push(Msg(1)).is_ok());
    assert!(q.try_push(Msg(2)).is_ok());
    assert!(q.try_push(Msg(3)).is_err());
    assert_eq!(q.try_pop().unwrap().0, 1);
    assert!(q.try_push(Msg(3)).is_ok());
    assert_eq!(q.try_pop().unwrap().0, 2);
    assert_eq!(q.try_pop().unwrap().0, 3);
    assert!(q.is_empty());
}
