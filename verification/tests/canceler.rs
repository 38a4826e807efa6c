use aselect::{Canceler, CancelerWrapper};

#[test]
fn new_canceler_requests_nothing() {
    let c = Canceler::new();
    assert_eq!(c.canceled, 0);
    assert!(!c.any());
    for i in 0..64u32 {
        assert!(!c.canceled(i));
    }
}

#[test]
fn cancel_marks_only_that_arm() {
    let mut c = Canceler::new();
    c.cancel(3);
    assert_eq!(c.canceled, 8);
    assert!(c.any());
    for i in 0..64u32 {
        assert_eq!(c.canceled(i), i == 3);
    }
    c.cancel(63);
    assert_eq!(c.canceled, 8 | (1u64 << 63));
    assert!(c.canceled(63));
    assert!(c.canceled(3));
    assert!(!c.canceled(62));
}

#[test]
fn cancel_twice_is_idempotent() {
    let mut c = Canceler::new();
    c.cancel(0);
    c.cancel(0);
    assert_eq!(c.canceled, 1);
}

#[test]
fn wrapper_cancels_its_arm() {
    let mut c = Canceler::new();
    {
        let mut w = CancelerWrapper::new(&mut c, 5);
        assert_eq!(w.index, 5);
        w.cancel();
    }
    assert!(c.canceled(5));
    assert!(!c.canceled(4));
    assert_eq!(c.canceled, 32);
}
