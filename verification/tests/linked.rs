use gen_arena::pin_signal::{Signal, SignalNet};

#[test]
fn new_signal_holds_its_value() {
    let mut net = SignalNet::new();
    let a = Signal::new(String::from("a"), &mut net);
    assert!(a.is_live(&net));
    assert_eq!(a.get(&net), "a");
}

#[test]
fn link_copies_the_value_at_once() {
    let mut net = SignalNet::new();
    let a = Signal::new(1, &mut net);
    let b = Signal::new(2, &mut net);
    a.link(b, &mut net);
    assert_eq!(a.get(&net), 1);
    assert_eq!(b.get(&net), 1);
}

#[test]
fn set_follows_the_links() {
    let mut net = SignalNet::new();
    let a = Signal::new(1, &mut net);
    let b = Signal::new(2, &mut net);
    let c = Signal::new(3, &mut net);
    let d = Signal::new(4, &mut net);
    a.link(b, &mut net);
    b.link(c, &mut net);
    a.set(10, &mut net);
    assert_eq!((a.get(&net), b.get(&net), c.get(&net), d.get(&net)), (10, 10, 10, 4));
    b.set(20, &mut net);
    assert_eq!((a.get(&net), b.get(&net), c.get(&net), d.get(&net)), (10, 20, 20, 4));
    c.set(30, &mut net);
    assert_eq!((a.get(&net), b.get(&net), c.get(&net), d.get(&net)), (10, 20, 30, 4));
}

#[test]
fn set_reaches_a_signal_over_two_ways() {
    let mut net = SignalNet::new();
    let a = Signal::new(0, &mut net);
    let b = Signal::new(0, &mut net);
    let c = Signal::new(0, &mut net);
    let d = Signal::new(0, &mut net);
    a.link(b, &mut net);
    a.link(c, &mut net);
    b.link(d, &mut net);
    c.link(d, &mut net);
    a.set(7, &mut net);
    assert_eq!((b.get(&net), c.get(&net), d.get(&net)), (7, 7, 7));
}

#[test]
fn set_ends_on_a_ring() {
    let mut net = SignalNet::new();
    let a = Signal::new(1, &mut net);
    let b = Signal::new(2, &mut net);
    a.link(b, &mut net);
    b.link(a, &mut net);
    b.set(5, &mut net);
    assert_eq!((a.get(&net), b.get(&net)), (5, 5));
}

#[test]
fn removed_signal_cuts_the_chain() {
    let mut net = SignalNet::new();
    let a = Signal::new(1, &mut net);
    let b = Signal::new(2, &mut net);
    let c = Signal::new(3, &mut net);
    a.link(b, &mut net);
    b.link(c, &mut net);
    assert_eq!(b.remove(&mut net), 1);
    assert!(!b.is_live(&net));
    a.set(9, &mut net);
    assert_eq!(a.get(&net), 9);
    assert_eq!(c.get(&net), 1);
    assert!(a.is_live(&net) && c.is_live(&net));
}

#[test]
fn signal_of_another_net_is_not_live() {
    let mut big = SignalNet::new();
    let _a = Signal::new(1, &mut big);
    let b = Signal::new(2, &mut big);
    let small: SignalNet<i32> = SignalNet::new();
    assert!(!b.is_live(&small));
}
