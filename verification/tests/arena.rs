use gen_arena::gen_ref::{GenBox, GenRefStorage};
use gen_arena::model::{LAST_GENERATION, MAX_SHARED};

#[test]
fn write_then_read() {
    let mut storage = GenRefStorage::<i32>::new();
    let owner = GenBox::new(5, &mut storage);
    let a = owner.get_ref(&storage);
    let guard = a.get_mut(&mut storage);
    assert_eq!(*guard.read(&storage), 5);
    *guard.write(&mut storage) = 6;
    guard.release(&mut storage);
    let guard = a.get(&mut storage);
    assert_eq!(*guard.read(&storage), 6);
    guard.release(&mut storage);
    assert_eq!(owner.destroy(&mut storage), 6);
}

#[test]
fn reuse_keeps_old_handle_stale() {
    let mut storage = GenRefStorage::<String>::new();
    let o1 = GenBox::new(String::from("first"), &mut storage);
    let w1 = o1.get_ref(&storage);
    let slot = o1.index();
    assert_eq!(o1.destroy(&mut storage), "first");
    let o2 = GenBox::new(String::from("second"), &mut storage);
    let w2 = o2.get_ref(&storage);
    assert_eq!(o2.index(), slot);
    assert_eq!(storage.len(), 1);
    assert_eq!(w1.index(), w2.index());
    assert_eq!(w1.generation(), 0);
    assert_eq!(w2.generation(), 1);
    assert!(w1.try_get(&mut storage).is_none());
    assert!(w1.try_get_mut(&mut storage).is_none());
    assert!(w1.is_stale(&storage));
    let guard = w2.try_get(&mut storage).unwrap();
    assert_eq!(guard.read(&storage), "second");
    guard.release(&mut storage);
    assert!(w1.try_get(&mut storage).is_none());
}

#[test]
fn exclusive_guard_blocks_shared() {
    let mut storage = GenRefStorage::<u8>::new();
    let owner = GenBox::new(1, &mut storage);
    let w = owner.get_ref(&storage);
    let g = w.get_mut(&mut storage);
    assert!(w.try_get(&mut storage).is_none());
    assert!(w.try_get_mut(&mut storage).is_none());
    assert!(!w.is_stale(&storage));
    g.release(&mut storage);
    let shared = w.try_get(&mut storage).unwrap();
    assert_eq!(*shared.read(&storage), 1);
    shared.release(&mut storage);
    let again = w.try_get_mut(&mut storage).unwrap();
    again.release(&mut storage);
}

#[test]
fn two_shared_guards_block_exclusive() {
    let mut storage = GenRefStorage::<u8>::new();
    let owner = GenBox::new(9, &mut storage);
    let w = owner.get_ref(&storage);
    let g1 = w.try_get(&mut storage).unwrap();
    let g2 = w.try_get(&mut storage).unwrap();
    assert_eq!(*g1.read(&storage), 9);
    assert_eq!(*g2.read(&storage), 9);
    assert!(w.try_get_mut(&mut storage).is_none());
    g1.release(&mut storage);
    assert!(w.try_get_mut(&mut storage).is_none());
    g2.release(&mut storage);
    let m = w.try_get_mut(&mut storage).unwrap();
    m.release(&mut storage);
}

#[test]
fn fresh_handle_is_available() {
    let mut storage = GenRefStorage::<i64>::new();
    let owner = GenBox::new(-3, &mut storage);
    let w = owner.get_ref(&storage);
    assert_eq!(w.index(), 0);
    assert_eq!(w.generation(), 0);
    assert!(!owner.in_use(&storage));
    let g = w.try_get(&mut storage).unwrap();
    g.release(&mut storage);
    let m = w.try_get_mut(&mut storage).unwrap();
    m.release(&mut storage);
}

#[test]
fn destroyed_owner_strands_every_copy() {
    let mut storage = GenRefStorage::<i32>::new();
    let keep = GenBox::new(10, &mut storage);
    let owner = GenBox::new(20, &mut storage);
    let w = owner.get_ref(&storage);
    let copy = w;
    let clone = w.clone();
    assert_eq!(owner.destroy(&mut storage), 20);
    for _ in 0..3 {
        assert!(w.try_get(&mut storage).is_none());
        assert!(copy.try_get_mut(&mut storage).is_none());
        assert!(clone.try_get(&mut storage).is_none());
    }
    let later = GenBox::new(30, &mut storage);
    let other = GenBox::new(40, &mut storage);
    assert!(w.try_get(&mut storage).is_none());
    assert!(w.try_get_mut(&mut storage).is_none());
    assert!(w.is_stale(&storage));
    assert_eq!(later.destroy(&mut storage), 30);
    assert!(w.try_get(&mut storage).is_none());
    assert_eq!(other.destroy(&mut storage), 40);
    assert_eq!(keep.destroy(&mut storage), 10);
    assert!(w.is_stale(&storage));
}

#[test]
fn shared_guards_release_in_any_order() {
    let mut storage = GenRefStorage::<u32>::new();
    let owner = GenBox::new(7, &mut storage);
    let w = owner.get_ref(&storage);
    let first = w.get(&mut storage);
    let second = w.get(&mut storage);
    let third = w.get(&mut storage);
    second.release(&mut storage);
    assert!(owner.in_use(&storage));
    assert!(w.try_get_mut(&mut storage).is_none());
    third.release(&mut storage);
    assert!(owner.in_use(&storage));
    assert!(w.try_get_mut(&mut storage).is_none());
    first.release(&mut storage);
    assert!(!owner.in_use(&storage));
    let first = w.get(&mut storage);
    let second = w.get(&mut storage);
    first.release(&mut storage);
    assert!(owner.in_use(&storage));
    second.release(&mut storage);
    assert!(!owner.in_use(&storage));
    let m = w.get_mut(&mut storage);
    m.release(&mut storage);
}

#[test]
fn guard_blocks_destruction() {
    let mut storage = GenRefStorage::<u32>::new();
    let owner = GenBox::new(7, &mut storage);
    let w = owner.get_ref(&storage);
    assert!(!owner.in_use(&storage));
    let shared = w.get(&mut storage);
    assert!(owner.in_use(&storage));
    shared.release(&mut storage);
    assert!(!owner.in_use(&storage));
    let exclusive = w.get_mut(&mut storage);
    assert!(owner.in_use(&storage));
    exclusive.release(&mut storage);
    assert!(!owner.in_use(&storage));
    assert_eq!(owner.destroy(&mut storage), 7);
}

#[test]
fn free_list_is_last_in_first_out() {
    let mut storage = GenRefStorage::<char>::new();
    let a = GenBox::new('a', &mut storage);
    let b = GenBox::new('b', &mut storage);
    let c = GenBox::new('c', &mut storage);
    assert_eq!((a.index(), b.index(), c.index()), (0, 1, 2));
    assert_eq!(storage.len(), 3);
    a.destroy(&mut storage);
    c.destroy(&mut storage);
    let d = GenBox::new('d', &mut storage);
    let e = GenBox::new('e', &mut storage);
    let f = GenBox::new('f', &mut storage);
    assert_eq!((d.index(), e.index(), f.index()), (2, 0, 3));
    assert_eq!(storage.len(), 4);
    assert_eq!(d.get_ref(&storage).generation(), 1);
    assert_eq!(e.get_ref(&storage).generation(), 1);
    assert_eq!(f.get_ref(&storage).generation(), 0);
    assert_eq!(b.get_ref(&storage).generation(), 0);
}

#[test]
fn generation_advances_with_each_life() {
    let mut storage = GenRefStorage::<usize>::new();
    let mut handles = Vec::new();
    for life in 0..5 {
        let owner = GenBox::new(life, &mut storage);
        assert_eq!(owner.index(), 0);
        let w = owner.get_ref(&storage);
        assert_eq!(w.generation(), life as u64);
        handles.push(w);
        assert_eq!(owner.destroy(&mut storage), life);
    }
    let owner = GenBox::new(99, &mut storage);
    for w in handles {
        assert!(w.is_stale(&storage));
        assert!(w.try_get(&mut storage).is_none());
    }
    assert!(!owner.get_ref(&storage).is_stale(&storage));
}

#[test]
fn handle_without_a_slot_is_refused() {
    let mut big = GenRefStorage::<i32>::new();
    let _first = GenBox::new(1, &mut big);
    let second = GenBox::new(2, &mut big);
    let w = second.get_ref(&big);
    let mut small = GenRefStorage::<i32>::new();
    assert!(w.is_stale(&small));
    assert!(w.try_get(&mut small).is_none());
    assert!(w.try_get_mut(&mut small).is_none());
    assert_eq!(small.len(), 0);
}

#[test]
fn values_in_different_slots_do_not_interfere() {
    let mut storage = GenRefStorage::<Vec<i32>>::new();
    let a = GenBox::new(vec![1], &mut storage);
    let b = GenBox::new(vec![2], &mut storage);
    let wa = a.get_ref(&storage);
    let wb = b.get_ref(&storage);
    let ga = wa.get_mut(&mut storage);
    let gb = wb.get_mut(&mut storage);
    ga.write(&mut storage).push(10);
    gb.write(&mut storage).push(20);
    assert_eq!(ga.read(&storage), &vec![1, 10]);
    assert_eq!(gb.read(&storage), &vec![2, 20]);
    assert!(a.in_use(&storage));
    ga.release(&mut storage);
    assert!(!a.in_use(&storage));
    assert!(b.in_use(&storage));
    gb.release(&mut storage);
    assert_eq!(a.destroy(&mut storage), vec![1, 10]);
    assert!(!wb.is_stale(&storage));
    assert_eq!(b.destroy(&mut storage), vec![2, 20]);
}

#[test]
fn limits_are_the_machine_limits() {
    assert_eq!(LAST_GENERATION, u64::MAX);
    assert_eq!(MAX_SHARED, u32::MAX);
}
