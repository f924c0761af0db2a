//! Signals: values in the arena that can be read, updated and derived from.
//!
//! An [`OwnedSignal`] owns a value, a [`Signal`] is a copyable handle to it.
//! An update marks the signal dirty and passes the new value on to the
//! signals derived from it. All signals of one value type live in one
//! [`SignalStorage`].

use crate::gen_ref::{GenBox, GenRef, GenRefGuard, GenRefMutGuard, GenRefStorage};
use crate::model::{ArenaState, Handle, SlotState};
use crate::reactive::{CellState, Link, SignalsState};
use vstd::prelude::*;

verus! {

/// One derivation as it is stored with its source.
pub struct Derivation<T, F> {
    target: GenRef<SignalValue<T, F>>,
    fun: F,
}

impl<T, F> View for Derivation<T, F> {
    type V = Link<F>;

    closed spec fn view(&self) -> Link<F> {
        Link { target: self.target@, fun: self.fun }
    }
}

/// What the arena holds for one signal: the value and the derivations.
pub struct SignalValue<T, F> {
    value: T,
    callbacks: Vec<Derivation<T, F>>,
}

impl<T, F> View for SignalValue<T, F> {
    type V = CellState<T, F>;

    closed spec fn view(&self) -> CellState<T, F> {
        CellState { value: self.value, links: self.callbacks@.map_values(|d: Derivation<T, F>| d@) }
    }
}

/// The storage of all signals with values of type `T` and derivation
/// functions of type `F`.
pub struct SignalStorage<T, F> {
    cells: GenRefStorage<SignalValue<T, F>>,
    dirty: Vec<bool>,
    born: Ghost<Seq<nat>>,
    clock: Ghost<nat>,
}

/// A slot of the arena, with the stored signal seen by its view.
pub closed spec fn lift_slot<T, F>(s: SlotState<SignalValue<T, F>>) -> SlotState<CellState<T, F>> {
    SlotState {
        generation: s.generation,
        shared_count: s.shared_count,
        exclusive_held: s.exclusive_held,
        value: match s.value {
            Some(v) => Some(v@),
            None => None,
        },
    }
}

/// The arena, with each stored signal seen by its view.
pub closed spec fn lift<T, F>(a: ArenaState<SignalValue<T, F>>) -> ArenaState<CellState<T, F>> {
    ArenaState { slots: a.slots.map_values(|s: SlotState<SignalValue<T, F>>| lift_slot(s)), free: a.free }
}

impl<T, F> View for SignalStorage<T, F> {
    type V = SignalsState<T, F>;

    closed spec fn view(&self) -> SignalsState<T, F> {
        SignalsState { arena: lift(self.cells@), dirty: self.dirty@, born: self.born@, clock: self.clock@ }
    }
}

/// Lifting keeps everything that the arena's rules speak of.
proof fn lemma_lift<T, F>(a: ArenaState<SignalValue<T, F>>)
    ensures
        lift(a).slots.len() == a.slots.len(),
        lift(a).free == a.free,
        lift(a).next_slot() == a.next_slot(),
        lift(a).wf() == a.wf(),
        forall|i: nat| #[trigger] lift(a).occupied(i) == a.occupied(i),
        forall|i: nat| #[trigger] lift(a).idle(i) == a.idle(i),
        forall|i: nat| #[trigger] lift(a).can_destroy(i) == a.can_destroy(i),
        forall|i: nat| a.has_slot(i) ==> #[trigger] lift(a).handle_of(i) == a.handle_of(i),
        forall|i: nat| a.occupied(i) ==> #[trigger] lift(a).value_of(i) == a.value_of(i)@,
        forall|h: Handle| #[trigger] lift(a).is_current(h) == a.is_current(h),
        forall|h: Handle| #[trigger] lift(a).can_share(h) == a.can_share(h),
        forall|h: Handle| #[trigger] lift(a).can_exclusive(h) == a.can_exclusive(h),
        forall|h: Handle| #[trigger] lift(a).holds_shared(h) == a.holds_shared(h),
        forall|h: Handle| #[trigger] lift(a).holds_exclusive(h) == a.holds_exclusive(h),
{
    let b = lift(a);
    assert forall|i: int| 0 <= i < a.slots.len() implies (#[trigger] b.slots[i]).wf()
        == a.slots[i].wf() by {}
    if a.wf() {
        assert forall|k: int| 0 <= k < b.free.len() implies b.has_slot(#[trigger] b.free[k])
            && !b.occupied(b.free[k]) by {
            assert(a.has_slot(a.free[k]) && !a.occupied(a.free[k]));
        }
        assert(b.wf());
    }
    if b.wf() {
        assert forall|i: int| 0 <= i < a.slots.len() implies (#[trigger] a.slots[i]).wf() by {
            assert(b.slots[i].wf());
        }
        assert forall|k: int| 0 <= k < a.free.len() implies a.has_slot(#[trigger] a.free[k])
            && !a.occupied(a.free[k]) by {
            assert(b.has_slot(b.free[k]) && !b.occupied(b.free[k]));
        }
        assert forall|j: int, k: int| 0 <= j < k < a.free.len() implies #[trigger] a.free[j]
            != #[trigger] a.free[k] by {
            assert(b.free[j] != b.free[k]);
        }
        assert(a.wf());
    }
}

/// Lifting goes through each operation of the arena.
proof fn lemma_lift_ops<T, F>(a: ArenaState<SignalValue<T, F>>, slot: nat)
    requires
        a.has_slot(slot),
    ensures
        lift(a.acquire_shared(slot)) == lift(a).acquire_shared(slot),
        lift(a.release_shared(slot)) == lift(a).release_shared(slot),
        lift(a.acquire_exclusive(slot)) == lift(a).acquire_exclusive(slot),
        lift(a.release_exclusive(slot)) == lift(a).release_exclusive(slot),
        lift(a.destroy(slot)) == lift(a).destroy(slot),
        forall|v: SignalValue<T, F>| #[trigger] lift(a.store(slot, v)) == lift(a).store(slot, v@),
{
    assert(lift(a.acquire_shared(slot)) =~= lift(a).acquire_shared(slot));
    assert(lift(a.release_shared(slot)) =~= lift(a).release_shared(slot));
    assert(lift(a.acquire_exclusive(slot)) =~= lift(a).acquire_exclusive(slot));
    assert(lift(a.release_exclusive(slot)) =~= lift(a).release_exclusive(slot));
    assert(lift(a.vacate(slot)) =~= lift(a).vacate(slot));
    assert(lift(a.vacate(slot).release(slot)) =~= lift(a).vacate(slot).release(slot));
    assert forall|v: SignalValue<T, F>| #[trigger]
        lift(a.store(slot, v)) == lift(a).store(slot, v@) by {
        assert(lift(a.store(slot, v)) =~= lift(a).store(slot, v@));
    }
}

/// Lifting goes through the construction of an owner.
proof fn lemma_lift_allocate<T, F>(a: ArenaState<SignalValue<T, F>>, v: SignalValue<T, F>)
    requires
        a.wf(),
    ensures
        lift(a.allocate(v)) == lift(a).allocate(v@),
{
    if a.free.len() > 0 {
        assert(a.has_slot(a.free[a.free.len() - 1]));
    }
    assert(lift(a.reserve()) =~= lift(a).reserve());
    assert(lift(a.allocate(v)) =~= lift(a).allocate(v@));
}

impl<T, F: Fn(&T) -> T> SignalStorage<T, F> {
    /// A storage without signals.
    pub fn new() -> (storage: Self)
        ensures
            storage@ == SignalsState::<T, F>::empty(),
            storage@.wf(),
    {
        let storage = SignalStorage {
            cells: GenRefStorage::new(),
            dirty: Vec::new(),
            born: Ghost(Seq::empty()),
            clock: Ghost(0),
        };
        proof {
            assert(lift(storage.cells@) =~= ArenaState::<CellState<T, F>>::empty());
            assert(storage@ =~= SignalsState::<T, F>::empty());
        }
        storage
    }
}

/// A handle to a signal: copyable, never owning.
pub struct Signal<T, F>(GenRef<SignalValue<T, F>>);

impl<T, F> Clone for Signal<T, F> {
    fn clone(&self) -> (copy: Self)
        ensures
            copy == *self,
    {
        Signal(self.0)
    }
}

impl<T, F> Copy for Signal<T, F> {

}

impl<T, F> View for Signal<T, F> {
    type V = Handle;

    closed spec fn view(&self) -> Handle {
        self.0@
    }
}

/// A shared guard on a signal's value.
pub struct SignalGuard<T, F>(GenRefGuard<SignalValue<T, F>>);

impl<T, F> View for SignalGuard<T, F> {
    type V = Handle;

    closed spec fn view(&self) -> Handle {
        self.0@
    }
}

/// The exclusive guard on a signal's value.
pub struct SignalMutGuard<T, F>(GenRefMutGuard<SignalValue<T, F>>);

impl<T, F> View for SignalMutGuard<T, F> {
    type V = Handle;

    closed spec fn view(&self) -> Handle {
        self.0@
    }
}

/// The owner of a signal.
pub struct OwnedSignal<T, F>(GenBox<SignalValue<T, F>>);

impl<T, F: Fn(&T) -> T> OwnedSignal<T, F> {
    /// The slot that holds the signal.
    pub closed spec fn slot(&self) -> nat {
        self.0.slot()
    }

    /// Makes a signal for `value`, clean and without derivations.
    pub fn new(value: T, storage: &mut SignalStorage<T, F>) -> (owner: Self)
        requires
            old(storage)@.wf(),
        ensures
            owner.slot() == old(storage)@.arena.next_slot(),
            final(storage)@ == old(storage)@.construct(value),
            final(storage)@.wf(),
    {
        let ghost before = storage@;
        let cell = SignalValue { value, callbacks: Vec::new() };
        proof {
            lemma_lift(storage.cells@);
            lemma_lift_allocate(storage.cells@, cell);
            assert(cell@.links =~= Seq::empty());
        }
        let owned = GenBox::new(cell, &mut storage.cells);
        let index = owned.index();
        if index < storage.dirty.len() {
            storage.dirty[index] = false;
        } else {
            storage.dirty.push(false);
        }
        proof {
            let slot = index as nat;
            if slot < before.born.len() {
                storage.born@ = before.born.update(slot as int, before.clock);
            } else {
                storage.born@ = before.born.push(before.clock);
            }
            storage.clock@ = before.clock + 1;
            lemma_lift(storage.cells@);
            assert(storage@ =~= before.construct(value));
            crate::laws::lemma_allocate_keeps_wf(
                before.arena,
                CellState { value, links: Seq::empty() },
            );
            lemma_construct_keeps_wf(before, value);
        }
        OwnedSignal(owned)
    }

    /// A handle to the signal.
    pub fn get_signal(&self, storage: &SignalStorage<T, F>) -> (signal: Signal<T, F>)
        requires
            storage@.arena.occupied(self.slot()),
        ensures
            signal@ == storage@.arena.handle_of(self.slot()),
    {
        proof {
            lemma_lift(storage.cells@);
        }
        Signal(self.0.get_ref(&storage.cells))
    }

    /// Whether a guard on the signal is alive. While one is, the owner
    /// cannot be destroyed.
    pub fn in_use(&self, storage: &SignalStorage<T, F>) -> (used: bool)
        requires
            storage@.arena.occupied(self.slot()),
        ensures
            used == !storage@.arena.idle(self.slot()),
    {
        proof {
            lemma_lift(storage.cells@);
        }
        self.0.in_use(&storage.cells)
    }

    /// Destroys the owner and hands back the value. Every handle to the
    /// signal is stale from now on. No guard may be alive.
    pub fn destroy(self, storage: &mut SignalStorage<T, F>) -> (value: T)
        requires
            old(storage)@.wf(),
            old(storage)@.arena.can_destroy(self.slot()),
        ensures
            value == old(storage)@.value(self.slot()),
            final(storage)@ == old(storage)@.destroy(self.slot()),
            final(storage)@.wf(),
    {
        let ghost before = storage@;
        proof {
            lemma_lift(storage.cells@);
            lemma_lift_ops(storage.cells@, self.slot());
        }
        let cell = self.0.destroy(&mut storage.cells);
        proof {
            assert(storage@ =~= before.destroy(self.slot()));
            lemma_destroy_keeps_wf(before, self.slot());
        }
        cell.value
    }
}

/// Making a signal keeps the storage well formed.
pub proof fn lemma_construct_keeps_wf<T, F: Fn(&T) -> T>(s: SignalsState<T, F>, value: T)
    requires
        s.wf(),
    ensures
        s.construct(value).wf(),
{
    let t = s.construct(value);
    let slot = s.arena.next_slot();
    crate::laws::lemma_allocate_keeps_wf(s.arena, CellState { value, links: Seq::empty() });
    if s.arena.free.len() > 0 {
        assert(s.arena.has_slot(s.arena.free[s.arena.free.len() - 1]));
        assert(!s.arena.occupied(s.arena.free[s.arena.free.len() - 1]));
    }
    assert forall|i: nat, k: int| t.arena.occupied(i) && 0 <= k < t.links(i).len() implies t.link_ok(
        i,
        #[trigger] t.links(i)[k],
    ) by {
        if i != slot {
            assert(s.arena.occupied(i));
            assert(t.links(i) == s.links(i));
            assert(s.link_ok(i, s.links(i)[k]));
            assert(s.born[i as int] < s.clock);
        }
    }
}

/// Destroying an owner keeps the storage well formed.
pub proof fn lemma_destroy_keeps_wf<T, F: Fn(&T) -> T>(s: SignalsState<T, F>, slot: nat)
    requires
        s.wf(),
        s.arena.can_destroy(slot),
    ensures
        s.destroy(slot).wf(),
{
    let t = s.destroy(slot);
    crate::laws::lemma_destroy_keeps_wf(s.arena, slot);
    assert forall|i: nat, k: int| t.arena.occupied(i) && 0 <= k < t.links(i).len() implies t.link_ok(
        i,
        #[trigger] t.links(i)[k],
    ) by {
        assert(i != slot);
        assert(s.arena.occupied(i));
        assert(t.links(i) == s.links(i));
        assert(s.link_ok(i, s.links(i)[k]));
    }
}

impl<T, F: Fn(&T) -> T> Signal<T, F> {
    /// A copy of the value. A shared guard is taken for the time of the
    /// copy, so one must be available.
    pub fn get(self, storage: &mut SignalStorage<T, F>) -> (value: T) where T: Copy
        requires
            old(storage)@.wf(),
            old(storage)@.arena.can_share(self@),
        ensures
            value == old(storage)@.value(self@.slot),
            final(storage)@ == old(storage)@,
    {
        let ghost before = storage@;
        proof {
            lemma_lift(storage.cells@);
            lemma_lift_ops(storage.cells@, self@.slot);
        }
        let this = self.0.get(&mut storage.cells);
        let value = this.read(&storage.cells).value;
        proof {
            lemma_lift_ops(storage.cells@, self@.slot);
        }
        this.release(&mut storage.cells);
        proof {
            assert(storage@.arena =~= before.arena);
        }
        value
    }

    /// Calls `fun` on the value, under a shared guard.
    pub fn with<R, G: FnOnce(&T) -> R>(self, fun: G, storage: &mut SignalStorage<T, F>) -> (res: R)
        requires
            old(storage)@.wf(),
            old(storage)@.arena.can_share(self@),
            call_requires(fun, (&old(storage)@.value(self@.slot),)),
        ensures
            call_ensures(fun, (&old(storage)@.value(self@.slot),), res),
            final(storage)@ == old(storage)@,
    {
        let ghost before = storage@;
        proof {
            lemma_lift(storage.cells@);
            lemma_lift_ops(storage.cells@, self@.slot);
        }
        let this = self.0.get(&mut storage.cells);
        let res = fun(&this.read(&storage.cells).value);
        proof {
            lemma_lift_ops(storage.cells@, self@.slot);
        }
        this.release(&mut storage.cells);
        proof {
            assert(storage@.arena =~= before.arena);
        }
        res
    }

    /// Calls `fun` on the value, under the exclusive guard. The signal is
    /// not marked dirty, and the signals derived from it are not told.
    pub fn with_mut<R, G: FnOnce(&mut T) -> R>(
        self,
        fun: G,
        storage: &mut SignalStorage<T, F>,
    ) -> (res: R)
        requires
            old(storage)@.wf(),
            old(storage)@.arena.can_exclusive(self@),
            forall|v: &mut T| *v == old(storage)@.value(self@.slot) ==> call_requires(fun, (v,)),
        ensures
            exists|v: &mut T|
                {
                    &&& *v == old(storage)@.value(self@.slot)
                    &&& #[trigger] call_ensures(fun, (v,), res)
                    &&& final(storage)@ == old(storage)@.set_value(self@.slot, *final(v))
                },
            final(storage)@.wf(),
    {
        let ghost before = storage@;
        proof {
            lemma_lift(storage.cells@);
            lemma_lift_ops(storage.cells@, self@.slot);
        }
        let this = self.0.get_mut(&mut storage.cells);
        let ghost locked = storage.cells@;
        proof {
            lemma_lift(locked);
            lemma_lift_ops(locked, self@.slot);
        }
        let res = fun(&mut this.write(&mut storage.cells).value);
        let ghost written = storage.cells@;
        proof {
            lemma_lift(written);
            lemma_lift_ops(written, self@.slot);
        }
        this.release(&mut storage.cells);
        proof {
            assert(storage@.arena =~= before.set_value(self@.slot, storage@.value(self@.slot)).arena);
            lemma_set_value_keeps_wf(before, self@.slot, storage@.value(self@.slot));
        }
        res
    }

    /// Takes a shared guard on the value, or `None` where the handle is
    /// stale, the exclusive guard is out, or the shared count is full. With
    /// the guard taken, the signal is clean.
    pub fn try_borrow(self, storage: &mut SignalStorage<T, F>) -> (res: Option<SignalGuard<T, F>>)
        requires
            old(storage)@.wf(),
        ensures
            res is Some <==> old(storage)@.arena.can_share(self@),
            res matches Some(guard) ==> guard@ == self@ && final(storage)@ == old(storage)@.share(
                self@.slot,
            ).set_dirty(self@.slot, false),
            res is None ==> final(storage)@ == old(storage)@,
            final(storage)@.wf(),
    {
        let ghost before = storage@;
        proof {
            lemma_lift(storage.cells@);
            if self@.slot < storage.cells@.slots.len() {
                lemma_lift_ops(storage.cells@, self@.slot);
            }
        }
        match self.0.try_get(&mut storage.cells) {
            Some(this) => {
                storage.dirty[self.0.index()] = false;
                proof {
                    assert(storage@ =~= before.share(self@.slot).set_dirty(self@.slot, false));
                    lemma_guards_keep_wf(before, self@.slot);
                    lemma_flag_keeps_wf(before.share(self@.slot), self@.slot, false);
                }
                Some(SignalGuard(this))
            },
            None => None,
        }
    }

    /// Takes a shared guard on the value where the caller knows that one can
    /// be taken. With the guard taken, the signal is clean.
    pub fn borrow(self, storage: &mut SignalStorage<T, F>) -> (guard: SignalGuard<T, F>)
        requires
            old(storage)@.wf(),
            old(storage)@.arena.can_share(self@),
        ensures
            guard@ == self@,
            final(storage)@ == old(storage)@.share(self@.slot).set_dirty(self@.slot, false),
            final(storage)@.wf(),
    {
        self.try_borrow(storage).unwrap()
    }

    /// Takes the exclusive guard on the value, or `None` where the handle is
    /// stale or a guard of either kind is out. With the guard taken, the
    /// signal is clean.
    pub fn try_borrow_mut(self, storage: &mut SignalStorage<T, F>) -> (res: Option<
        SignalMutGuard<T, F>,
    >)
        requires
            old(storage)@.wf(),
        ensures
            res is Some <==> old(storage)@.arena.can_exclusive(self@),
            res matches Some(guard) ==> guard@ == self@ && final(storage)@ == old(storage)@.lock(
                self@.slot,
            ).set_dirty(self@.slot, false),
            res is None ==> final(storage)@ == old(storage)@,
            final(storage)@.wf(),
    {
        let ghost before = storage@;
        proof {
            lemma_lift(storage.cells@);
            if self@.slot < storage.cells@.slots.len() {
                lemma_lift_ops(storage.cells@, self@.slot);
            }
        }
        match self.0.try_get_mut(&mut storage.cells) {
            Some(this) => {
                storage.dirty[self.0.index()] = false;
                proof {
                    assert(storage@ =~= before.lock(self@.slot).set_dirty(self@.slot, false));
                    lemma_guards_keep_wf(before, self@.slot);
                    lemma_flag_keeps_wf(before.lock(self@.slot), self@.slot, false);
                }
                Some(SignalMutGuard(this))
            },
            None => None,
        }
    }

    /// Takes the exclusive guard on the value where the caller knows that it
    /// can be taken. With the guard taken, the signal is clean.
    pub fn borrow_mut(self, storage: &mut SignalStorage<T, F>) -> (guard: SignalMutGuard<T, F>)
        requires
            old(storage)@.wf(),
            old(storage)@.arena.can_exclusive(self@),
        ensures
            guard@ == self@,
            final(storage)@ == old(storage)@.lock(self@.slot).set_dirty(self@.slot, false),
            final(storage)@.wf(),
    {
        self.try_borrow_mut(storage).unwrap()
    }

    /// Whether the signal was updated since it was last borrowed. A shared
    /// guard is taken for the time of the look, so one must be available.
    pub fn is_dirty(&self, storage: &mut SignalStorage<T, F>) -> (dirty: bool)
        requires
            old(storage)@.wf(),
            old(storage)@.arena.can_share(self@),
        ensures
            dirty == old(storage)@.is_dirty(self@.slot),
            final(storage)@ == old(storage)@,
    {
        let ghost before = storage@;
        proof {
            lemma_lift(storage.cells@);
            lemma_lift_ops(storage.cells@, self@.slot);
        }
        let this = self.0.get(&mut storage.cells);
        let dirty = storage.dirty[self.0.index()];
        proof {
            lemma_lift_ops(storage.cells@, self@.slot);
        }
        this.release(&mut storage.cells);
        proof {
            assert(storage@.arena =~= before.arena);
        }
        dirty
    }
}

impl<T, F: Fn(&T) -> T> SignalGuard<T, F> {
    /// The value, readable for as long as the storage is not touched.
    pub fn read<'a>(&self, storage: &'a SignalStorage<T, F>) -> (value: &'a T)
        requires
            storage@.arena.holds_shared(self@),
        ensures
            *value == storage@.value(self@.slot),
    {
        proof {
            lemma_lift(storage.cells@);
        }
        &self.0.read(&storage.cells).value
    }

    /// Ends the access: the shared count goes down by one.
    pub fn release(self, storage: &mut SignalStorage<T, F>)
        requires
            old(storage)@.wf(),
            old(storage)@.arena.holds_shared(self@),
        ensures
            final(storage)@ == old(storage)@.unshare(self@.slot),
            final(storage)@.wf(),
    {
        let ghost before = storage@;
        proof {
            lemma_lift(storage.cells@);
            lemma_lift_ops(storage.cells@, self@.slot);
        }
        self.0.release(&mut storage.cells);
        proof {
            assert(storage@ =~= before.unshare(self@.slot));
            lemma_guards_keep_wf(before, self@.slot);
        }
    }
}

impl<T, F: Fn(&T) -> T> SignalMutGuard<T, F> {
    /// The value, readable for as long as the storage is not touched.
    pub fn read<'a>(&self, storage: &'a SignalStorage<T, F>) -> (value: &'a T)
        requires
            storage@.arena.holds_exclusive(self@),
        ensures
            *value == storage@.value(self@.slot),
    {
        proof {
            lemma_lift(storage.cells@);
        }
        &self.0.read(&storage.cells).value
    }

    /// The value, writable; what the caller leaves behind the reference is
    /// the signal's new value. The signal is not marked dirty, and the
    /// signals derived from it are not told.
    pub fn write<'a>(&self, storage: &'a mut SignalStorage<T, F>) -> (value: &'a mut T)
        requires
            old(storage)@.wf(),
            old(storage)@.arena.holds_exclusive(self@),
        ensures
            *value == old(storage)@.value(self@.slot),
            final(storage)@ == old(storage)@.set_value(self@.slot, *final(value)),
            final(storage)@.wf(),
    {
        proof {
            let before = storage@;
            lemma_lift(storage.cells@);
            lemma_lift_ops(storage.cells@, self@.slot);
            assert forall|v: T| (#[trigger] before.set_value(self@.slot, v)).wf() by {
                lemma_set_value_keeps_wf(before, self@.slot, v);
            }
        }
        &mut self.0.write(&mut storage.cells).value
    }

    /// Ends the access: the exclusive flag is cleared.
    pub fn release(self, storage: &mut SignalStorage<T, F>)
        requires
            old(storage)@.wf(),
            old(storage)@.arena.holds_exclusive(self@),
        ensures
            final(storage)@ == old(storage)@.unlock(self@.slot),
            final(storage)@.wf(),
    {
        let ghost before = storage@;
        proof {
            lemma_lift(storage.cells@);
            lemma_lift_ops(storage.cells@, self@.slot);
        }
        self.0.release(&mut storage.cells);
        proof {
            assert(storage@ =~= before.unlock(self@.slot));
            lemma_guards_keep_wf(before, self@.slot);
        }
    }
}

/// Taking or releasing a guard keeps the storage well formed.
pub proof fn lemma_guards_keep_wf<T, F: Fn(&T) -> T>(s: SignalsState<T, F>, slot: nat)
    requires
        s.wf(),
        s.arena.occupied(slot),
    ensures
        s.arena.slots[slot as int].shared_count < crate::model::MAX_SHARED
            && !s.arena.slots[slot as int].exclusive_held ==> s.share(slot).wf(),
        s.arena.slots[slot as int].shared_count > 0 ==> s.unshare(slot).wf(),
        s.arena.idle(slot) ==> s.lock(slot).wf(),
        s.arena.slots[slot as int].exclusive_held ==> s.unlock(slot).wf(),
{
    assert(s.arena.slots[slot as int].wf());
    if s.arena.slots[slot as int].shared_count < crate::model::MAX_SHARED
        && !s.arena.slots[slot as int].exclusive_held {
        lemma_same_cells_keep_wf(s, s.share(slot));
    }
    if s.arena.slots[slot as int].shared_count > 0 {
        lemma_same_cells_keep_wf(s, s.unshare(slot));
    }
    if s.arena.idle(slot) {
        lemma_same_cells_keep_wf(s, s.lock(slot));
    }
    if s.arena.slots[slot as int].exclusive_held {
        lemma_same_cells_keep_wf(s, s.unlock(slot));
    }
}

/// A state that differs from a well formed one only in the guards that are
/// out, within the arena's rules, is well formed.
proof fn lemma_same_cells_keep_wf<T, F: Fn(&T) -> T>(s: SignalsState<T, F>, t: SignalsState<T, F>)
    requires
        s.wf(),
        t.dirty.len() == s.dirty.len(),
        t.born == s.born,
        t.clock == s.clock,
        t.arena.free == s.arena.free,
        t.arena.slots.len() == s.arena.slots.len(),
        forall|i: int|
            0 <= i < s.arena.slots.len() ==> (#[trigger] t.arena.slots[i]).wf()
                && t.arena.slots[i].generation == s.arena.slots[i].generation
                && t.arena.slots[i].value == s.arena.slots[i].value,
    ensures
        t.wf(),
{
    assert forall|k: int| 0 <= k < t.arena.free.len() implies t.arena.has_slot(
        #[trigger] t.arena.free[k],
    ) && !t.arena.occupied(t.arena.free[k]) by {
        assert(s.arena.has_slot(s.arena.free[k]) && !s.arena.occupied(s.arena.free[k]));
    }
    assert forall|i: nat, k: int| t.arena.occupied(i) && 0 <= k < t.links(i).len() implies t.link_ok(
        i,
        #[trigger] t.links(i)[k],
    ) by {
        assert(s.arena.occupied(i));
        assert(t.links(i) == s.links(i));
        assert(s.link_ok(i, s.links(i)[k]));
    }
}

/// A new value keeps the storage well formed.
pub proof fn lemma_set_value_keeps_wf<T, F: Fn(&T) -> T>(s: SignalsState<T, F>, slot: nat, value: T)
    requires
        s.wf(),
        s.arena.occupied(slot),
    ensures
        s.set_value(slot, value).wf(),
{
    let t = s.set_value(slot, value);
    assert(s.arena.slots[slot as int].wf());
    assert forall|k: int| 0 <= k < t.arena.free.len() implies t.arena.has_slot(
        #[trigger] t.arena.free[k],
    ) && !t.arena.occupied(t.arena.free[k]) by {
        assert(s.arena.has_slot(s.arena.free[k]) && !s.arena.occupied(s.arena.free[k]));
    }
    assert forall|i: nat, k: int| t.arena.occupied(i) && 0 <= k < t.links(i).len() implies t.link_ok(
        i,
        #[trigger] t.links(i)[k],
    ) by {
        assert(s.arena.occupied(i));
        assert(t.links(i) == s.links(i));
        assert(s.link_ok(i, s.links(i)[k]));
    }
}

/// A changed dirty flag keeps the storage well formed.
pub proof fn lemma_flag_keeps_wf<T, F: Fn(&T) -> T>(s: SignalsState<T, F>, slot: nat, dirty: bool)
    requires
        s.wf(),
        s.arena.has_slot(slot),
    ensures
        s.set_dirty(slot, dirty).wf(),
{
    let t = s.set_dirty(slot, dirty);
    assert forall|i: nat, k: int| t.arena.occupied(i) && 0 <= k < t.links(i).len() implies t.link_ok(
        i,
        #[trigger] t.links(i)[k],
    ) by {
        assert(s.link_ok(i, s.links(i)[k]));
    }
}

impl<T, F: Fn(&T) -> T> Signal<T, F> {
    /// Passes the value of the locked signal on to the signals derived from
    /// it, drops the derivations whose target refuses, and releases the
    /// lock.
    fn notify(self, guard: GenRefMutGuard<SignalValue<T, F>>, storage: &mut SignalStorage<T, F>)
        requires
            old(storage)@.wf(),
            guard@ == self@,
            old(storage)@.arena.holds_exclusive(self@),
        ensures
            old(storage)@.notified(self@, 0, final(storage)@),
            final(storage)@.wf(),
            old(storage)@.unlock(self@.slot).same_frame(final(storage)@),
            old(storage)@.guarded_kept_but(final(storage)@, self@.slot),
            final(storage)@.value(self@.slot) == old(storage)@.value(self@.slot),
            final(storage)@.is_dirty(self@.slot) == old(storage)@.is_dirty(self@.slot),
        decreases old(storage)@.age(self@.slot),
    {
        let ghost start = storage@;
        let ghost slot = self@.slot;
        let mut k: usize = 0;
        proof {
            lemma_lift(storage.cells@);
        }
        while k < guard.read(&storage.cells).callbacks.len()
            invariant
                storage@.wf(),
                guard@ == self@,
                slot == self@.slot,
                storage@.arena.holds_exclusive(self@),
                start == old(storage)@,
                start.arena.holds_exclusive(self@),
                start.same_frame(storage@),
                start.guarded_kept_but(storage@, slot),
                storage@.value(slot) == start.value(slot),
                storage@.is_dirty(slot) == start.is_dirty(slot),
                storage.cells@.holds_exclusive(self@),
                storage.cells@.wf(),
                storage.cells@.value_of(slot)@ == storage@.cell(slot),
                forall|post: SignalsState<T, F>| #[trigger]
                    storage@.notified(self@, k as nat, post) ==> start.notified(self@, 0, post),
            decreases storage@.links(slot).len() - k,
        {
            let ghost cur = storage@;
            let ghost links = cur.links(slot);
            let ghost link = links[k as int];
            let target = guard.read(&storage.cells).callbacks[k].target;
            proof {
                lemma_lift(storage.cells@);
                assert(link.target == target@);
                assert(cur.link_ok(slot, cur.links(slot)[k as int]));
                if target@.slot < storage.cells@.slots.len() {
                    lemma_lift_ops(storage.cells@, target@.slot);
                }
            }
            match target.try_get_mut(&mut storage.cells) {
                Some(lock) => {
                    proof {
                        lemma_lift(storage.cells@);
                        lemma_lift_ops(storage.cells@, target@.slot);
                        assert(target@.slot != slot);
                        assert(storage@ == cur.lock(target@.slot));
                        lemma_guards_keep_wf(cur, target@.slot);
                    }
                    let cell = guard.read(&storage.cells);
                    proof {
                        assert(cell@ == cur.cell(slot));
                        assert(cell.value == cur.value(slot));
                        assert(cell.callbacks[k as int]@ == link);
                        assert(cell.callbacks[k as int].fun == link.fun);
                    }
                    let value = (cell.callbacks[k].fun)(&cell.value);
                    assert(call_ensures(link.fun, (&cur.value(slot),), value));
                    lock.write(&mut storage.cells).value = value;
                    storage.dirty[target.index()] = true;
                    let ghost taken = storage@;
                    proof {
                        lemma_lift(storage.cells@);
                        assert(taken.arena =~= cur.written(target@.slot, value).arena);
                        assert(taken =~= cur.written(target@.slot, value));
                        lemma_set_value_keeps_wf(cur.lock(target@.slot), target@.slot, value);
                        lemma_flag_keeps_wf(
                            cur.lock(target@.slot).set_value(target@.slot, value),
                            target@.slot,
                            true,
                        );
                        assert(cur.arena.is_current(target@));
                        assert(cur.age(target@.slot) < cur.age(slot));
                    }
                    Signal(target).notify(lock, storage);
                    let ghost mid = storage@;
                    let ghost at = k as nat;
                    k += 1;
                    proof {
                        lemma_lift(storage.cells@);
                        assert(mid.arena.slots[slot as int] == cur.arena.slots[slot as int]);
                        assert(mid.links(slot) == links);
                        assert(start.same_frame(mid)) by {
                            assert forall|i: int| 0 <= i < start.arena.slots.len() implies {
                                let a = #[trigger] start.arena.slots[i];
                                let b = mid.arena.slots[i];
                                &&& a.generation == b.generation
                                &&& a.shared_count == b.shared_count
                                &&& a.exclusive_held == b.exclusive_held
                                &&& a.occupied() == b.occupied()
                            } by {
                                assert(cur.arena.slots[i].generation
                                    == start.arena.slots[i].generation);
                                assert(taken.unlock(target@.slot).arena.slots[i].generation
                                    == cur.arena.slots[i].generation);
                            }
                        }
                        assert(start.guarded_kept_but(mid, slot)) by {
                            assert forall|i: nat|
                                i != slot && start.arena.occupied(i) && !start.arena.idle(
                                    i,
                                ) implies #[trigger] mid.arena.slots[i as int]
                                == start.arena.slots[i as int] && mid.dirty[i as int]
                                == start.dirty[i as int] by {
                                assert(cur.arena.slots[i as int] == start.arena.slots[i as int]);
                                assert(i != target@.slot);
                                assert(taken.arena.slots[i as int] == cur.arena.slots[i as int]);
                                assert(taken.arena.occupied(i) && !taken.arena.idle(i));
                            }
                        }
                        assert forall|post: SignalsState<T, F>| #[trigger]
                            mid.notified(self@, k as nat, post) implies start.notified(
                            self@,
                            0,
                            post,
                        ) by {
                            lemma_notified_passes(cur, self@, at, value, mid, post);
                        }
                    }
                },
                None => {
                    proof {
                        lemma_lift_ops(storage.cells@, slot);
                    }
                    guard.write(&mut storage.cells).callbacks.remove(k);
                    let ghost cut = storage@;
                    proof {
                        lemma_lift(storage.cells@);
                        assert(storage.cells@.value_of(slot)@.links =~= links.remove(k as int));
                        assert(cut.arena =~= cur.set_links(slot, links.remove(k as int)).arena);
                        assert(cut =~= cur.set_links(slot, links.remove(k as int)));
                        lemma_fewer_links_keep_wf(cur, slot, k as int);
                        assert forall|post: SignalsState<T, F>| #[trigger]
                            cut.notified(self@, k as nat, post) implies start.notified(
                            self@,
                            0,
                            post,
                        ) by {
                            lemma_notified_drops(cur, self@, k as nat, post);
                        }
                    }
                },
            }
        }
        proof {
            lemma_lift_ops(storage.cells@, slot);
        }
        let ghost done = storage@;
        guard.release(&mut storage.cells);
        proof {
            lemma_lift(storage.cells@);
            assert(storage@ =~= done.unlock(slot));
            lemma_guards_keep_wf(done, slot);
            assert(done.notified(self@, k as nat, storage@));
        }
    }

    /// Assigns `value` to the signal and passes it on to the signals
    /// derived from it; `false`, with nothing done, where the exclusive
    /// guard cannot be had.
    pub fn try_set(self, value: T, storage: &mut SignalStorage<T, F>) -> (ok: bool)
        requires
            old(storage)@.wf(),
        ensures
            ok == old(storage)@.arena.can_exclusive(self@),
            old(storage)@.assigned(self@, value, final(storage)@, ok),
            old(storage)@.same_frame(final(storage)@),
            old(storage)@.guarded_kept(final(storage)@),
            ok ==> final(storage)@.value(self@.slot) == value && final(storage)@.is_dirty(
                self@.slot,
            ),
            final(storage)@.wf(),
    {
        let ghost before = storage@;
        proof {
            lemma_lift(storage.cells@);
            if self@.slot < storage.cells@.slots.len() {
                lemma_lift_ops(storage.cells@, self@.slot);
            }
        }
        match self.0.try_get_mut(&mut storage.cells) {
            Some(lock) => {
                proof {
                    lemma_lift(storage.cells@);
                    lemma_lift_ops(storage.cells@, self@.slot);
                    lemma_guards_keep_wf(before, self@.slot);
                }
                lock.write(&mut storage.cells).value = value;
                storage.dirty[self.0.index()] = true;
                proof {
                    lemma_lift(storage.cells@);
                    assert(storage@.arena =~= before.written(self@.slot, value).arena);
                    assert(storage@ =~= before.written(self@.slot, value));
                    lemma_set_value_keeps_wf(before.lock(self@.slot), self@.slot, value);
                    lemma_flag_keeps_wf(
                        before.lock(self@.slot).set_value(self@.slot, value),
                        self@.slot,
                        true,
                    );
                }
                self.notify(lock, storage);
                proof {
                    lemma_written_frame(before, self@.slot, value, storage@);
                }
                true
            },
            None => false,
        }
    }
}

impl<T, F: Fn(&T) -> T> Signal<T, F> {
    /// Assigns `new_value` to the signal and passes it on to the signals
    /// derived from it. The exclusive guard must be available.
    pub fn set(self, new_value: T, storage: &mut SignalStorage<T, F>)
        requires
            old(storage)@.wf(),
            old(storage)@.arena.can_exclusive(self@),
        ensures
            old(storage)@.assigned(self@, new_value, final(storage)@, true),
            old(storage)@.same_frame(final(storage)@),
            old(storage)@.guarded_kept(final(storage)@),
            final(storage)@.value(self@.slot) == new_value,
            final(storage)@.is_dirty(self@.slot),
            final(storage)@.wf(),
    {
        let _ = self.try_set(new_value, storage);
    }

    /// Lets `fun` change the value under the exclusive guard, marks the
    /// signal dirty and passes the new value on to the signals derived from
    /// it; `false`, with nothing done and `fun` not called, where the
    /// exclusive guard cannot be had.
    pub fn try_update<G: FnOnce(&mut T)>(self, fun: G, storage: &mut SignalStorage<T, F>) -> (ok:
        bool)
        requires
            old(storage)@.wf(),
            forall|v: &mut T| *v == old(storage)@.value(self@.slot) ==> call_requires(fun, (v,)),
        ensures
            ok == old(storage)@.arena.can_exclusive(self@),
            !ok ==> final(storage)@ == old(storage)@,
            ok ==> exists|v: &mut T|
                {
                    &&& *v == old(storage)@.value(self@.slot)
                    &&& #[trigger] call_ensures(fun, (v,), ())
                    &&& old(storage)@.written(self@.slot, *final(v)).notified(
                        self@,
                        0,
                        final(storage)@,
                    )
                    &&& final(storage)@.value(self@.slot) == *final(v)
                },
            ok ==> final(storage)@.is_dirty(self@.slot),
            old(storage)@.same_frame(final(storage)@),
            old(storage)@.guarded_kept(final(storage)@),
            final(storage)@.wf(),
    {
        let ghost before = storage@;
        proof {
            lemma_lift(storage.cells@);
            if self@.slot < storage.cells@.slots.len() {
                lemma_lift_ops(storage.cells@, self@.slot);
            }
        }
        match self.0.try_get_mut(&mut storage.cells) {
            Some(lock) => {
                proof {
                    lemma_lift(storage.cells@);
                    lemma_lift_ops(storage.cells@, self@.slot);
                    lemma_guards_keep_wf(before, self@.slot);
                }
                fun(&mut lock.write(&mut storage.cells).value);
                storage.dirty[self.0.index()] = true;
                let ghost value = storage@.value(self@.slot);
                proof {
                    lemma_lift(storage.cells@);
                    assert(storage@.arena =~= before.written(self@.slot, value).arena);
                    assert(storage@ =~= before.written(self@.slot, value));
                    lemma_set_value_keeps_wf(before.lock(self@.slot), self@.slot, value);
                    lemma_flag_keeps_wf(
                        before.lock(self@.slot).set_value(self@.slot, value),
                        self@.slot,
                        true,
                    );
                }
                self.notify(lock, storage);
                proof {
                    lemma_written_frame(before, self@.slot, value, storage@);
                }
                true
            },
            None => false,
        }
    }

    /// Lets `fun` change the value under the exclusive guard, marks the
    /// signal dirty and passes the new value on to the signals derived from
    /// it. The exclusive guard must be available.
    pub fn update<G: FnOnce(&mut T)>(self, fun: G, storage: &mut SignalStorage<T, F>)
        requires
            old(storage)@.wf(),
            old(storage)@.arena.can_exclusive(self@),
            forall|v: &mut T| *v == old(storage)@.value(self@.slot) ==> call_requires(fun, (v,)),
        ensures
            exists|v: &mut T|
                {
                    &&& *v == old(storage)@.value(self@.slot)
                    &&& #[trigger] call_ensures(fun, (v,), ())
                    &&& old(storage)@.written(self@.slot, *final(v)).notified(
                        self@,
                        0,
                        final(storage)@,
                    )
                    &&& final(storage)@.value(self@.slot) == *final(v)
                },
            final(storage)@.is_dirty(self@.slot),
            old(storage)@.same_frame(final(storage)@),
            old(storage)@.guarded_kept(final(storage)@),
            final(storage)@.wf(),
    {
        let _ = self.try_update(fun, storage);
    }

    /// Makes a signal whose value follows this one's: it starts out as
    /// `fun` of the present value and is assigned `fun` of each value that
    /// an update gives to this signal, for as long as its owner lives. The
    /// exclusive guard of this signal must be available.
    pub fn derived(self, fun: F, storage: &mut SignalStorage<T, F>) -> (owner: OwnedSignal<T, F>)
        requires
            old(storage)@.wf(),
            old(storage)@.arena.can_exclusive(self@),
            SignalsState::<T, F>::total(fun),
        ensures
            owner.slot() == old(storage)@.arena.next_slot(),
            call_ensures(
                fun,
                (&old(storage)@.value(self@.slot),),
                final(storage)@.value(owner.slot()),
            ),
            final(storage)@ == old(storage)@.derive(
                self@.slot,
                fun,
                final(storage)@.value(owner.slot()),
            ),
            final(storage)@.arena.occupied(owner.slot()),
            final(storage)@.arena.idle(owner.slot()),
            owner.slot() != self@.slot,
            final(storage)@.arena.can_exclusive(self@),
            final(storage)@.value(self@.slot) == old(storage)@.value(self@.slot),
            final(storage)@.wf(),
    {
        let ghost before = storage@;
        proof {
            lemma_lift(storage.cells@);
            lemma_lift_ops(storage.cells@, self@.slot);
            assert(before.arena.slots[self@.slot as int].wf());
        }
        let this = self.0.get(&mut storage.cells);
        proof {
            lemma_lift(storage.cells@);
            assert(storage@.value(self@.slot) == before.value(self@.slot));
        }
        let value = fun(&this.read(&storage.cells).value);
        assert(call_ensures(fun, (&before.value(self@.slot),), value));
        proof {
            lemma_lift_ops(storage.cells@, self@.slot);
        }
        this.release(&mut storage.cells);
        proof {
            assert(storage@.arena =~= before.arena);
            crate::laws::lemma_allocate_keeps_wf(
                before.arena,
                CellState { value, links: Seq::empty() },
            );
            if before.arena.free.len() > 0 {
                assert(before.arena.has_slot(before.arena.free[before.arena.free.len() - 1]));
                assert(!before.arena.occupied(before.arena.free[before.arena.free.len() - 1]));
            }
        }
        let derived = OwnedSignal::new(value, storage);
        let ghost made = storage@;
        proof {
            lemma_lift(storage.cells@);
            assert(made.arena.slots[self@.slot as int] == before.arena.slots[self@.slot as int]);
            lemma_lift_ops(storage.cells@, self@.slot);
        }
        let target = derived.0.get_ref(&storage.cells);
        let lock = self.0.get_mut(&mut storage.cells);
        proof {
            lemma_lift(storage.cells@);
            lemma_lift_ops(storage.cells@, self@.slot);
        }
        lock.write(&mut storage.cells).callbacks.push(Derivation { target, fun });
        proof {
            lemma_lift(storage.cells@);
            lemma_lift_ops(storage.cells@, self@.slot);
        }
        lock.release(&mut storage.cells);
        proof {
            lemma_lift(storage.cells@);
            let link = Link { target: target@, fun };
            assert(storage@.links(self@.slot) =~= before.links(self@.slot).push(link));
            assert(storage@.arena =~= before.derive(self@.slot, fun, value).arena);
            assert(storage@ =~= before.derive(self@.slot, fun, value));
            lemma_derive_keeps_wf(before, self@.slot, fun, value);
            assert(storage@.value(derived.slot()) == value);
        }
        derived
    }
}

/// Deriving a signal keeps the storage well formed.
pub proof fn lemma_derive_keeps_wf<T, F: Fn(&T) -> T>(
    s: SignalsState<T, F>,
    slot: nat,
    fun: F,
    value: T,
)
    requires
        s.wf(),
        s.arena.occupied(slot),
        SignalsState::<T, F>::total(fun),
    ensures
        s.derive(slot, fun, value).wf(),
{
    let made = s.construct(value);
    let fresh = s.arena.next_slot();
    let t = s.derive(slot, fun, value);
    lemma_construct_keeps_wf(s, value);
    crate::laws::lemma_allocate_keeps_wf(s.arena, CellState { value, links: Seq::empty() });
    if s.arena.free.len() > 0 {
        assert(s.arena.has_slot(s.arena.free[s.arena.free.len() - 1]));
        assert(!s.arena.occupied(s.arena.free[s.arena.free.len() - 1]));
    }
    assert(fresh != slot);
    assert(made.arena.occupied(slot));
    assert(made.arena.slots[slot as int].wf());
    assert(made.born[fresh as int] == s.clock);
    assert(s.born[slot as int] < s.clock);
    assert forall|j: int| 0 <= j < t.arena.free.len() implies t.arena.has_slot(
        #[trigger] t.arena.free[j],
    ) && !t.arena.occupied(t.arena.free[j]) by {
        assert(made.arena.has_slot(made.arena.free[j]) && !made.arena.occupied(
            made.arena.free[j],
        ));
    }
    assert forall|i: nat, j: int| t.arena.occupied(i) && 0 <= j < t.links(i).len() implies t.link_ok(
        i,
        #[trigger] t.links(i)[j],
    ) by {
        assert(made.arena.occupied(i));
        if i == slot {
            if j < made.links(slot).len() {
                assert(t.links(i)[j] == made.links(i)[j]);
                assert(made.link_ok(i, made.links(i)[j]));
            }
        } else {
            assert(t.links(i) == made.links(i));
            assert(made.link_ok(i, made.links(i)[j]));
        }
    }
}

/// One derivation whose target accepts: its target is written and notifies
/// in turn, then the rest of the list follows.
proof fn lemma_notified_passes<T, F: Fn(&T) -> T>(
    s: SignalsState<T, F>,
    h: Handle,
    k: nat,
    value: T,
    mid: SignalsState<T, F>,
    post: SignalsState<T, F>,
)
    requires
        k < s.links(h.slot).len(),
        s.arena.can_exclusive(s.links(h.slot)[k as int].target),
        call_ensures(s.links(h.slot)[k as int].fun, (&s.value(h.slot),), value),
        s.age(s.links(h.slot)[k as int].target.slot) < s.age(h.slot),
        s.written(s.links(h.slot)[k as int].target.slot, value).notified(
            s.links(h.slot)[k as int].target,
            0,
            mid,
        ),
        mid.age(h.slot) == s.age(h.slot),
        mid.links(h.slot) == s.links(h.slot),
        mid.notified(h, k + 1, post),
    ensures
        s.notified(h, k, post),
{
}

/// One derivation whose target refuses: it is dropped, then the rest of
/// the list follows.
proof fn lemma_notified_drops<T, F: Fn(&T) -> T>(
    s: SignalsState<T, F>,
    h: Handle,
    k: nat,
    post: SignalsState<T, F>,
)
    requires
        k < s.links(h.slot).len(),
        !s.arena.can_exclusive(s.links(h.slot)[k as int].target),
        s.arena.has_slot(h.slot),
        s.set_links(h.slot, s.links(h.slot).remove(k as int)).notified(h, k, post),
    ensures
        s.notified(h, k, post),
{
}

/// A state reached from a written one, with the lock given back and no
/// guarded signal touched, differs from the state before the writing only in
/// signals that had no guard out.
proof fn lemma_written_frame<T, F: Fn(&T) -> T>(
    s: SignalsState<T, F>,
    slot: nat,
    value: T,
    post: SignalsState<T, F>,
)
    requires
        s.wf(),
        s.arena.occupied(slot),
        s.arena.idle(slot),
        s.written(slot, value).unlock(slot).same_frame(post),
        s.written(slot, value).guarded_kept_but(post, slot),
    ensures
        s.same_frame(post),
        s.guarded_kept(post),
{
    let w = s.written(slot, value);
    assert(s.same_frame(post)) by {
        assert forall|i: int| 0 <= i < s.arena.slots.len() implies {
            let a = #[trigger] s.arena.slots[i];
            let b = post.arena.slots[i];
            &&& a.generation == b.generation
            &&& a.shared_count == b.shared_count
            &&& a.exclusive_held == b.exclusive_held
            &&& a.occupied() == b.occupied()
        } by {
            assert(w.unlock(slot).arena.slots[i].generation == s.arena.slots[i].generation);
        }
    }
    assert forall|i: nat| s.arena.occupied(i) && !s.arena.idle(i) implies #[trigger] post.arena.slots[i as int]
        == s.arena.slots[i as int] && post.dirty[i as int] == s.dirty[i as int] by {
        assert(i != slot);
        assert(w.arena.slots[i as int] == s.arena.slots[i as int]);
        assert(w.arena.occupied(i) && !w.arena.idle(i));
    }
}

/// Dropping a derivation keeps the storage well formed.
proof fn lemma_fewer_links_keep_wf<T, F: Fn(&T) -> T>(s: SignalsState<T, F>, slot: nat, k: int)
    requires
        s.wf(),
        s.arena.occupied(slot),
        0 <= k < s.links(slot).len(),
    ensures
        s.set_links(slot, s.links(slot).remove(k)).wf(),
{
    let t = s.set_links(slot, s.links(slot).remove(k));
    assert(s.arena.slots[slot as int].wf());
    assert forall|j: int| 0 <= j < t.arena.free.len() implies t.arena.has_slot(
        #[trigger] t.arena.free[j],
    ) && !t.arena.occupied(t.arena.free[j]) by {
        assert(s.arena.has_slot(s.arena.free[j]) && !s.arena.occupied(s.arena.free[j]));
    }
    assert forall|i: nat, j: int| t.arena.occupied(i) && 0 <= j < t.links(i).len() implies t.link_ok(
        i,
        #[trigger] t.links(i)[j],
    ) by {
        assert(s.arena.occupied(i));
        if i == slot {
            if j < k {
                assert(t.links(i)[j] == s.links(i)[j]);
                assert(s.link_ok(i, s.links(i)[j]));
            } else {
                assert(t.links(i)[j] == s.links(i)[j + 1]);
                assert(s.link_ok(i, s.links(i)[j + 1]));
            }
        } else {
            assert(t.links(i) == s.links(i));
            assert(s.link_ok(i, s.links(i)[j]));
        }
    }
}

} // verus!
