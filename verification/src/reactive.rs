//! The signals as their contracts see them.
//!
//! A signal is a value in the arena together with the list of the signals
//! derived from it. Beside the arena stand one dirty flag per slot and the
//! order in which the slots' occupants were made.

use crate::model::{ArenaState, Handle};
use vstd::prelude::*;

verus! {

/// A derivation: the signal that is derived, and the function that computes
/// its value from the source's.
pub struct Link<F> {
    pub target: Handle,
    pub fun: F,
}

/// What the arena holds for one signal.
pub struct CellState<T, F> {
    pub value: T,
    pub links: Seq<Link<F>>,
}

/// All signals of one value type.
#[verifier::ext_equal]
pub struct SignalsState<T, F> {
    /// The arena that holds the signals.
    pub arena: ArenaState<CellState<T, F>>,
    /// For each slot, whether its signal was updated since it was last
    /// borrowed.
    pub dirty: Seq<bool>,
    /// For each slot, the reading of `clock` when its occupant was made.
    pub born: Seq<nat>,
    /// The number of signals made so far.
    pub clock: nat,
}

impl<T, F: Fn(&T) -> T> SignalsState<T, F> {
    /// No signal was made yet.
    pub open spec fn empty() -> Self {
        SignalsState {
            arena: ArenaState::empty(),
            dirty: Seq::empty(),
            born: Seq::empty(),
            clock: 0,
        }
    }

    /// What the signal in `slot` holds.
    pub open spec fn cell(self, slot: nat) -> CellState<T, F> {
        self.arena.value_of(slot)
    }

    /// The value of the signal in `slot`.
    pub open spec fn value(self, slot: nat) -> T {
        self.cell(slot).value
    }

    /// The derivations from the signal in `slot`, oldest first.
    pub open spec fn links(self, slot: nat) -> Seq<Link<F>> {
        self.cell(slot).links
    }

    /// The dirty flag of the signal in `slot`.
    pub open spec fn is_dirty(self, slot: nat) -> bool {
        self.dirty[slot as int]
    }

    /// How far the occupant of `slot` is from the newest signal. A derived
    /// signal is always nearer to it than its source.
    pub open spec fn age(self, slot: nat) -> nat {
        if slot < self.born.len() && self.born[slot as int] < self.clock {
            (self.clock - self.born[slot as int]) as nat
        } else {
            0
        }
    }

    /// The function of a derivation accepts every value.
    pub open spec fn total(fun: F) -> bool {
        forall|v: T| call_requires(fun, (&v,))
    }

    /// A derivation stored with the signal in `source` is sound: its
    /// function accepts every value, and its target, while it lives, was
    /// made after the source.
    pub open spec fn link_ok(self, source: nat, link: Link<F>) -> bool {
        &&& Self::total(link.fun)
        &&& self.arena.is_current(link.target) ==> self.born[link.target.slot as int]
            > self.born[source as int]
    }

    /// The arena is well formed, each slot has its flag and its time of
    /// birth, and every stored derivation is sound.
    pub open spec fn wf(self) -> bool {
        &&& self.arena.wf()
        &&& self.dirty.len() == self.arena.slots.len()
        &&& self.born.len() == self.arena.slots.len()
        &&& forall|i: int| 0 <= i < self.born.len() ==> #[trigger] self.born[i] < self.clock
        &&& forall|i: nat, k: int|
            self.arena.occupied(i) && 0 <= k < self.links(i).len() ==> self.link_ok(
                i,
                #[trigger] self.links(i)[k],
            )
    }

    /// The two states differ in nothing but values, derivations and dirty
    /// flags: the same slots with the same generations and guards, the same
    /// free list, the same times of birth.
    pub open spec fn same_frame(self, other: Self) -> bool {
        &&& self.arena.slots.len() == other.arena.slots.len()
        &&& self.arena.free == other.arena.free
        &&& self.dirty.len() == other.dirty.len()
        &&& self.born == other.born
        &&& self.clock == other.clock
        &&& forall|i: int|
            0 <= i < self.arena.slots.len() ==> {
                let a = #[trigger] self.arena.slots[i];
                let b = other.arena.slots[i];
                &&& a.generation == b.generation
                &&& a.shared_count == b.shared_count
                &&& a.exclusive_held == b.exclusive_held
                &&& a.occupied() == b.occupied()
            }
    }

    /// Every signal that has a guard out in `self` is in `other` exactly as
    /// it is in `self`.
    pub open spec fn guarded_kept(self, other: Self) -> bool {
        forall|i: nat|
            self.arena.occupied(i) && !self.arena.idle(i) ==> #[trigger] other.arena.slots[i as int]
                == self.arena.slots[i as int] && other.dirty[i as int] == self.dirty[i as int]
    }

    /// The state with another arena.
    pub open spec fn with_arena(self, arena: ArenaState<CellState<T, F>>) -> Self {
        SignalsState { arena, ..self }
    }

    /// The value of the signal in `slot` becomes `value`.
    pub open spec fn set_value(self, slot: nat, value: T) -> Self {
        self.with_arena(self.arena.store(slot, CellState { value, links: self.links(slot) }))
    }

    /// The derivations of the signal in `slot` become `links`.
    pub open spec fn set_links(self, slot: nat, links: Seq<Link<F>>) -> Self {
        self.with_arena(self.arena.store(slot, CellState { value: self.value(slot), links }))
    }

    /// The dirty flag of `slot` becomes `dirty`.
    pub open spec fn set_dirty(self, slot: nat, dirty: bool) -> Self {
        SignalsState { dirty: self.dirty.update(slot as int, dirty), ..self }
    }

    /// A signal is made for `value`, with no derivations and a clean flag.
    pub open spec fn construct(self, value: T) -> Self {
        let slot = self.arena.next_slot();
        SignalsState {
            arena: self.arena.allocate(CellState { value, links: Seq::empty() }),
            dirty: if slot < self.dirty.len() {
                self.dirty.update(slot as int, false)
            } else {
                self.dirty.push(false)
            },
            born: if slot < self.born.len() {
                self.born.update(slot as int, self.clock)
            } else {
                self.born.push(self.clock)
            },
            clock: self.clock + 1,
        }
    }

    /// The owner of the signal in `slot` is destroyed.
    pub open spec fn destroy(self, slot: nat) -> Self {
        self.with_arena(self.arena.destroy(slot))
    }

    /// A shared guard is taken on `slot`.
    pub open spec fn share(self, slot: nat) -> Self {
        self.with_arena(self.arena.acquire_shared(slot))
    }

    /// A shared guard on `slot` is released.
    pub open spec fn unshare(self, slot: nat) -> Self {
        self.with_arena(self.arena.release_shared(slot))
    }

    /// The exclusive guard is taken on `slot`.
    pub open spec fn lock(self, slot: nat) -> Self {
        self.with_arena(self.arena.acquire_exclusive(slot))
    }

    /// The exclusive guard on `slot` is released.
    pub open spec fn unlock(self, slot: nat) -> Self {
        self.with_arena(self.arena.release_exclusive(slot))
    }

    /// Every signal but the one in `except` that has a guard out in `self`
    /// is in `other` exactly as it is in `self`.
    pub open spec fn guarded_kept_but(self, other: Self, except: nat) -> bool {
        forall|i: nat|
            i != except && self.arena.occupied(i) && !self.arena.idle(i) ==> #[trigger] other.arena.slots[i as int]
                == self.arena.slots[i as int] && other.dirty[i as int] == self.dirty[i as int]
    }

    /// The signal in `slot` is locked, takes `value` and is marked dirty.
    pub open spec fn written(self, slot: nat, value: T) -> Self {
        self.lock(slot).set_value(slot, value).set_dirty(slot, true)
    }

    /// A signal is derived from the one in `slot`: it is made with `value`,
    /// and the derivation is added behind the others of its source.
    pub open spec fn derive(self, slot: nat, fun: F, value: T) -> Self {
        let made = self.construct(value);
        let target = made.arena.handle_of(self.arena.next_slot());
        made.set_links(slot, self.links(slot).push(Link { target, fun }))
    }

    /// `post` is what becomes of `self`, in which the signal behind `h` is
    /// locked, when its derivations from the `k`-th on are notified and the
    /// lock is released. A derivation whose target gives its exclusive guard
    /// computes a value from the source's; the target takes it, is marked
    /// dirty and notifies its own derivations in turn. A derivation whose
    /// target refuses is dropped from the list.
    pub open spec fn notified(self, h: Handle, k: nat, post: Self) -> bool
        decreases self.age(h.slot), self.links(h.slot).len() - k,
    {
        let links = self.links(h.slot);
        if k >= links.len() {
            post == self.unlock(h.slot)
        } else {
            let link = links[k as int];
            if self.arena.can_exclusive(link.target) {
                exists|value: T, mid: Self|
                    {
                        &&& #[trigger] call_ensures(link.fun, (&self.value(h.slot),), value)
                        &&& self.age(link.target.slot) < self.age(h.slot)
                        &&& self.written(link.target.slot, value).notified(link.target, 0, mid)
                        &&& #[trigger] mid.age(h.slot) == self.age(h.slot)
                        &&& mid.links(h.slot) == links
                        &&& mid.notified(h, k + 1, post)
                    }
            } else {
                self.arena.has_slot(h.slot) && self.set_links(
                    h.slot,
                    links.remove(k as int),
                ).notified(h, k, post)
            }
        }
    }

    /// `post` is what becomes of `self` when `value` is assigned to the
    /// signal behind `h`. Where the exclusive guard cannot be had, nothing
    /// happens and `ok` is false. Otherwise the signal takes the value under
    /// the guard, is marked dirty, and notifies its derivations.
    pub open spec fn assigned(self, h: Handle, value: T, post: Self, ok: bool) -> bool {
        if self.arena.can_exclusive(h) {
            ok && self.written(h.slot, value).notified(h, 0, post)
        } else {
            !ok && post == self
        }
    }
}

} // verus!
