use ntex_pool::waiters::Waiters;

#[test]
fn waiters_wake_in_registration_order() {
    let mut w: Waiters<u32> = Waiters::new();
    let a = w.append(10);
    let b = w.append(20);
    let c = w.append(30);
    assert_eq!((a, b, c), (0, 1, 2));
    assert_eq!(w.occupied_len(), 3);
    assert_eq!(w.consume(), Some(10));
    assert_eq!(w.consume(), Some(20));
    assert_eq!(w.occupied_len(), 1);
    assert_eq!(w.consume(), Some(30));
    assert_eq!(w.consume(), None);
    assert_eq!(w.len(), 3);
}

#[test]
fn consumed_slot_rejoins_at_tail() {
    let mut w: Waiters<u32> = Waiters::new();
    let a = w.append(1);
    let _b = w.append(2);
    assert_eq!(w.consume(), Some(1));
    assert!(!w.is_waiting(a));
    assert!(w.is_held(a));
    assert!(w.update(a, 3));
    assert!(!w.update(a, 4));
    assert_eq!(w.consume(), Some(2));
    assert_eq!(w.consume(), Some(4));
}

#[test]
fn removed_middle_slot_is_skipped_and_reused() {
    let mut w: Waiters<u32> = Waiters::new();
    let _a = w.append(1);
    let b = w.append(2);
    let _c = w.append(3);
    w.remove(b);
    assert!(!w.is_held(b));
    assert_eq!(w.len(), 2);
    let d = w.append(4);
    assert_eq!(d, b);
    assert_eq!(w.consume(), Some(1));
    assert_eq!(w.consume(), Some(3));
    assert_eq!(w.consume(), Some(4));
}

#[test]
fn remove_out_of_range_does_nothing() {
    let mut w: Waiters<u32> = Waiters::new();
    w.append(1);
    w.remove(5);
    assert_eq!(w.len(), 1);
    assert_eq!(w.consume(), Some(1));
}

#[test]
fn emptied_list_keeps_at_most_128_slots() {
    let mut w: Waiters<u32> = Waiters::new();
    let mut ids = Vec::new();
    for i in 0..200u32 {
        ids.push(w.append(i));
    }
    for id in ids {
        w.remove(id);
    }
    assert_eq!(w.len(), 0);
    assert_eq!(w.append(7), 0);
    assert_eq!(w.append(8), 1);
    assert_eq!(w.consume(), Some(7));
}
