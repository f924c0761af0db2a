use gen_arena::signal::{OwnedSignal, Signal, SignalStorage};

type Fun = fn(&i32) -> i32;
type Store = SignalStorage<i32, Fun>;

fn double(x: &i32) -> i32 {
    2 * *x
}

fn negate(x: &i32) -> i32 {
    -*x
}

fn plus_one(x: &i32) -> i32 {
    *x + 1
}

#[test]
fn new_signal_is_clean_and_readable() {
    let mut store = Store::new();
    let owner = OwnedSignal::new(4, &mut store);
    let s = owner.get_signal(&store);
    assert_eq!(s.get(&mut store), 4);
    assert!(!s.is_dirty(&mut store));
    assert!(!owner.in_use(&store));
}

#[test]
fn set_marks_dirty_and_borrow_cleans() {
    let mut store = Store::new();
    let owner = OwnedSignal::new(1, &mut store);
    let s = owner.get_signal(&store);
    s.set(2, &mut store);
    assert_eq!(s.get(&mut store), 2);
    assert!(s.is_dirty(&mut store));
    let guard = s.borrow(&mut store);
    assert_eq!(*guard.read(&store), 2);
    assert!(owner.in_use(&store));
    guard.release(&mut store);
    assert!(!s.is_dirty(&mut store));
    s.update(|v: &mut i32| *v += 5, &mut store);
    assert_eq!(s.get(&mut store), 7);
    assert!(s.is_dirty(&mut store));
    let guard = s.borrow_mut(&mut store);
    *guard.write(&mut store) = 9;
    assert_eq!(*guard.read(&store), 9);
    guard.release(&mut store);
    assert!(!s.is_dirty(&mut store));
    assert_eq!(s.get(&mut store), 9);
}

#[test]
fn with_reads_and_with_mut_writes_quietly() {
    let mut store = Store::new();
    let owner = OwnedSignal::new(3, &mut store);
    let s = owner.get_signal(&store);
    let derived = s.derived(double as Fun, &mut store);
    let d = derived.get_signal(&store);
    assert_eq!(s.with(|v: &i32| *v * 10, &mut store), 30);
    assert_eq!(s.with_mut(|v: &mut i32| { *v = 8; 1 }, &mut store), 1);
    assert_eq!(s.get(&mut store), 8);
    assert!(!s.is_dirty(&mut store));
    assert_eq!(d.get(&mut store), 6);
}

#[test]
fn derived_signal_follows_its_source() {
    let mut store = Store::new();
    let owner = OwnedSignal::new(1, &mut store);
    let s = owner.get_signal(&store);
    let derived = s.derived(double as Fun, &mut store);
    let d = derived.get_signal(&store);
    assert_eq!(d.get(&mut store), 2);
    assert!(!d.is_dirty(&mut store));
    s.set(5, &mut store);
    assert_eq!(s.get(&mut store), 5);
    assert_eq!(d.get(&mut store), 10);
    assert!(d.is_dirty(&mut store));
    s.update(|v: &mut i32| *v -= 8, &mut store);
    assert_eq!(d.get(&mut store), -6);
}

#[test]
fn derivations_chain_and_fan_out() {
    let mut store = Store::new();
    let owner = OwnedSignal::new(1, &mut store);
    let a = owner.get_signal(&store);
    let ob = a.derived(double as Fun, &mut store);
    let b = ob.get_signal(&store);
    let oc = b.derived(plus_one as Fun, &mut store);
    let c = oc.get_signal(&store);
    let od = a.derived(negate as Fun, &mut store);
    let d = od.get_signal(&store);
    assert_eq!((b.get(&mut store), c.get(&mut store), d.get(&mut store)), (2, 3, -1));
    a.set(10, &mut store);
    assert_eq!((b.get(&mut store), c.get(&mut store), d.get(&mut store)), (20, 21, -10));
    b.set(4, &mut store);
    assert_eq!((a.get(&mut store), c.get(&mut store), d.get(&mut store)), (10, 5, -10));
}

#[test]
fn update_is_refused_while_borrowed_or_stale() {
    let mut store = Store::new();
    let owner = OwnedSignal::new(1, &mut store);
    let s = owner.get_signal(&store);
    let guard = s.borrow(&mut store);
    assert!(!s.try_update(|v: &mut i32| *v = 2, &mut store));
    assert!(!s.try_set(3, &mut store));
    assert!(s.try_borrow_mut(&mut store).is_none());
    let second = s.try_borrow(&mut store).unwrap();
    second.release(&mut store);
    guard.release(&mut store);
    assert_eq!(s.get(&mut store), 1);
    assert!(s.try_update(|v: &mut i32| *v = 2, &mut store));
    assert_eq!(s.get(&mut store), 2);
    assert_eq!(owner.destroy(&mut store), 2);
    assert!(!s.try_update(|v: &mut i32| *v = 4, &mut store));
    assert!(!s.try_set(5, &mut store));
    assert!(s.try_borrow(&mut store).is_none());
    assert!(s.try_borrow_mut(&mut store).is_none());
}

#[test]
fn destroyed_derived_signal_is_forgotten() {
    let mut store = Store::new();
    let owner = OwnedSignal::new(1, &mut store);
    let s = owner.get_signal(&store);
    let derived = s.derived(double as Fun, &mut store);
    let d = derived.get_signal(&store);
    assert_eq!(derived.destroy(&mut store), 2);
    let other = OwnedSignal::new(100, &mut store);
    let o = other.get_signal(&store);
    s.set(7, &mut store);
    assert_eq!(s.get(&mut store), 7);
    assert_eq!(o.get(&mut store), 100);
    assert!(!o.is_dirty(&mut store));
    assert!(d.try_borrow(&mut store).is_none());
}

#[test]
fn busy_derived_signal_is_dropped_from_the_list() {
    let mut store = Store::new();
    let owner = OwnedSignal::new(1, &mut store);
    let s = owner.get_signal(&store);
    let derived = s.derived(double as Fun, &mut store);
    let d = derived.get_signal(&store);
    let guard = d.borrow(&mut store);
    s.set(5, &mut store);
    assert_eq!(*guard.read(&store), 2);
    guard.release(&mut store);
    assert_eq!(d.get(&mut store), 2);
    s.set(6, &mut store);
    assert_eq!(s.get(&mut store), 6);
    assert_eq!(d.get(&mut store), 2);
}

#[test]
fn signal_handles_are_copies() {
    let mut store = Store::new();
    let owner = OwnedSignal::new(1, &mut store);
    let s: Signal<i32, Fun> = owner.get_signal(&store);
    let t = s;
    let u = s.clone();
    t.set(3, &mut store);
    assert_eq!(u.get(&mut store), 3);
    assert_eq!(s.get(&mut store), 3);
}

#[test]
fn reused_slot_starts_clean() {
    let mut store = Store::new();
    let first = OwnedSignal::new(1, &mut store);
    let s = first.get_signal(&store);
    s.set(2, &mut store);
    assert!(s.is_dirty(&mut store));
    assert_eq!(first.destroy(&mut store), 2);
    let second = OwnedSignal::new(3, &mut store);
    let t = second.get_signal(&store);
    assert!(!t.is_dirty(&mut store));
    assert_eq!(t.get(&mut store), 3);
    assert!(s.try_borrow(&mut store).is_none());
}
