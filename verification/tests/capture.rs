use aselect::{ConstantCapture, LockedCapture, UnsafeCapture};

#[test]
fn unsafe_capture_access_changes_value() {
    let mut cap = UnsafeCapture::new(1u32);
    {
        let mut acc = cap.access();
        *acc.get() += 4;
        assert_eq!(*acc.value, 5);
        let mut cell = acc.get_cell();
        let old = cell.with(|v: &mut u32| {
            let o = *v;
            *v = o * 2;
            o
        });
        assert_eq!(old, 5);
    }
    let mut acc = cap.access();
    assert_eq!(*acc.get(), 10);
}

#[test]
fn locked_capture_is_held_by_one_block() {
    let mut cap = LockedCapture::new(String::from("Borrowed"));
    {
        let mut acc = cap.access();
        let v = acc.get().unwrap();
        *v = String::from("Set");
    }
    let mut g = cap.lock().unwrap();
    assert_eq!(g.get_mut(&mut cap).as_str(), "Set");
    *g.get_mut(&mut cap) = String::from("Modified");
    // while held: no access for setups and handlers, no second holder
    assert!(cap.access().get().is_none());
    assert!(cap.lock().is_none());
    g.release(&mut cap);
    {
        let mut acc = cap.access();
        assert_eq!(acc.get().unwrap().as_str(), "Modified");
    }
    let g2 = cap.lock();
    assert!(g2.is_some());
}

#[test]
fn unreleased_guard_keeps_capture_held() {
    let mut cap = LockedCapture::new(7u32);
    let g = cap.lock().unwrap();
    std::mem::drop(g);
    assert!(cap.lock().is_none());
    let mut acc = cap.access();
    assert!(acc.get().is_none());
}

#[test]
fn constant_capture_reads() {
    let x = 43u32;
    let c = ConstantCapture::new(&x);
    assert_eq!(*c.const_access(), 43);
}
