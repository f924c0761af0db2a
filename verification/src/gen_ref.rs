//! The arena and its handles.
//!
//! A [`GenRefStorage`] owns the slots. A [`GenBox`] owns one slot's lifetime,
//! a [`GenRef`] is a copyable weak handle to it, and a [`GenRefGuard`] or
//! [`GenRefMutGuard`] stands for one access that is going on. Guards are
//! plain tokens: they are given back to the storage by `release`.

use crate::model::{ArenaState, Handle, SlotState};
use std::marker::PhantomData;
use vstd::prelude::*;

verus! {

/// One slot of the arena.
pub struct GenValue<T> {
    gen: u64,
    borrows: u32,
    mut_borrow: bool,
    value: Option<T>,
}

impl<T> View for GenValue<T> {
    type V = SlotState<T>;

    closed spec fn view(&self) -> SlotState<T> {
        SlotState {
            generation: self.gen as nat,
            shared_count: self.borrows as nat,
            exclusive_held: self.mut_borrow,
            value: self.value,
        }
    }
}

/// The arena: every slot ever made for values of type `T`, and the free list.
pub struct GenRefStorage<T> {
    slots: Vec<GenValue<T>>,
    pool: Vec<usize>,
}

impl<T> View for GenRefStorage<T> {
    type V = ArenaState<T>;

    closed spec fn view(&self) -> ArenaState<T> {
        ArenaState {
            slots: self.slots@.map_values(|s: GenValue<T>| s@),
            free: self.pool@.map_values(|i: usize| i as nat),
        }
    }
}

impl<T> GenRefStorage<T> {
    /// An arena without slots.
    pub fn new() -> (storage: Self)
        ensures
            storage@ == ArenaState::<T>::empty(),
            storage@.wf(),
    {
        let storage = GenRefStorage { slots: Vec::new(), pool: Vec::new() };
        assert(storage@ =~= ArenaState::<T>::empty());
        storage
    }

    /// The number of slots, whether occupied, free or retired.
    pub fn len(&self) -> (len: usize)
        ensures
            len == self@.slots.len(),
    {
        self.slots.len()
    }

    /// Takes the slot that was freed last, with its generation as it is, or
    /// makes a new slot with generation zero and no guards.
    fn allocate(&mut self) -> (index: usize)
        requires
            old(self)@.wf(),
        ensures
            index == old(self)@.next_slot(),
            final(self)@ == old(self)@.reserve(),
            final(self)@.wf(),
            final(self)@.has_slot(index as nat),
            !final(self)@.occupied(index as nat),
            !final(self)@.pooled(index as nat),
    {
        let ghost before = self@;
        match self.pool.pop() {
            Some(index) => {
                proof {
                    assert(self@.free =~= before.free.drop_last());
                    assert(self@ =~= before.reserve());
                    assert(before.free[before.free.len() - 1] == index);
                    assert(before.has_slot(before.free[before.free.len() - 1]));
                    assert forall|k: int| 0 <= k < self@.free.len() implies self@.free[k]
                        != index by {
                        assert(self@.free[k] == before.free[k]);
                    }
                }
                index
            },
            None => {
                let index = self.slots.len();
                self.slots.push(GenValue { gen: 0, borrows: 0, mut_borrow: false, value: None });
                proof {
                    assert(self@.slots =~= before.slots.push(SlotState::fresh()));
                    assert(self@ =~= before.reserve());
                }
                index
            },
        }
    }

    /// Gives a vacated slot back: at the terminal generation it is left out
    /// of the free list for good, otherwise its generation advances and it
    /// joins the free list.
    fn free(&mut self, index: usize)
        requires
            old(self)@.wf(),
            old(self)@.has_slot(index as nat),
            !old(self)@.occupied(index as nat),
            !old(self)@.pooled(index as nat),
        ensures
            final(self)@ == old(self)@.release(index as nat),
            final(self)@.wf(),
    {
        let ghost before = self@;
        if self.slots[index].gen == u64::MAX {
            return ;
        }
        self.slots[index].gen += 1;
        self.pool.push(index);
        proof {
            let s = before.slots[index as int];
            assert(self@.slots =~= before.slots.update(
                index as int,
                SlotState { generation: s.generation + 1, ..s },
            ));
            assert(self@.free =~= before.free.push(index as nat));
            assert(self@ =~= before.release(index as nat));
            assert forall|j: int, k: int| 0 <= j < k < self@.free.len() implies self@.free[j]
                != self@.free[k] by {
                if k == before.free.len() {
                    assert(before.free.contains(before.free[j]));
                }
            }
        }
    }
}

/// A weak handle: copyable, never owning. It must pass the generation check
/// before each access.
pub struct GenRef<T> {
    index: usize,
    gen: u64,
    marker: PhantomData<T>,
}

impl<T> Clone for GenRef<T> {
    fn clone(&self) -> (copy: Self)
        ensures
            copy == *self,
    {
        GenRef { index: self.index, gen: self.gen, marker: PhantomData }
    }
}

impl<T> Copy for GenRef<T> {

}

impl<T> View for GenRef<T> {
    type V = Handle;

    closed spec fn view(&self) -> Handle {
        Handle { slot: self.index as nat, generation: self.gen as nat }
    }
}

/// A shared guard: while it is alive nobody can write the value.
pub struct GenRefGuard<T>(GenRef<T>);

impl<T> View for GenRefGuard<T> {
    type V = Handle;

    closed spec fn view(&self) -> Handle {
        self.0@
    }
}

/// The exclusive guard: while it is alive nobody else can reach the value.
pub struct GenRefMutGuard<T>(GenRef<T>);

impl<T> View for GenRefMutGuard<T> {
    type V = Handle;

    closed spec fn view(&self) -> Handle {
        self.0@
    }
}

/// The owner of one slot. It is neither copied nor cloned, so a slot has at
/// most one.
pub struct GenBox<T> {
    index: usize,
    marker: PhantomData<T>,
}

impl<T> GenBox<T> {
    /// The slot that this owner holds.
    pub closed spec fn slot(&self) -> nat {
        self.index as nat
    }

    /// The index of the slot that this owner holds.
    pub fn index(&self) -> (index: usize)
        ensures
            index == self.slot(),
    {
        self.index
    }

    /// Constructs an owner for `value`: the slot freed last is reused, or a
    /// new one is made.
    pub fn new(value: T, storage: &mut GenRefStorage<T>) -> (owner: Self)
        requires
            old(storage)@.wf(),
        ensures
            owner.slot() == old(storage)@.next_slot(),
            final(storage)@ == old(storage)@.allocate(value),
            final(storage)@.wf(),
    {
        let ghost before = storage@;
        let index = storage.allocate();
        let ghost reserved = storage@;
        storage.slots[index].value = Some(value);
        proof {
            assert(storage@.slots =~= reserved.store(index as nat, value).slots);
            assert(storage@ =~= before.allocate(value));
        }
        GenBox { index, marker: PhantomData }
    }

    /// A weak handle to the value, carrying the slot's generation as it is
    /// now.
    pub fn get_ref(&self, storage: &GenRefStorage<T>) -> (handle: GenRef<T>)
        requires
            storage@.occupied(self.slot()),
        ensures
            handle@ == storage@.handle_of(self.slot()),
    {
        GenRef { index: self.index, gen: storage.slots[self.index].gen, marker: PhantomData }
    }

    /// Whether a guard derived from this owner is alive. While one is, the
    /// owner cannot be destroyed.
    pub fn in_use(&self, storage: &GenRefStorage<T>) -> (used: bool)
        requires
            storage@.occupied(self.slot()),
        ensures
            used == !storage@.idle(self.slot()),
    {
        storage.slots[self.index].borrows > 0 || storage.slots[self.index].mut_borrow
    }

    /// Destroys the owner and hands back its value. The slot's generation
    /// advances and the slot joins the free list, or the slot is retired at
    /// the terminal generation. No guard may be alive.
    pub fn destroy(self, storage: &mut GenRefStorage<T>) -> (value: T)
        requires
            old(storage)@.wf(),
            old(storage)@.can_destroy(self.slot()),
        ensures
            value == old(storage)@.value_of(self.slot()),
            final(storage)@ == old(storage)@.destroy(self.slot()),
            final(storage)@.wf(),
    {
        let ghost before = storage@;
        let value = storage.slots[self.index].value.take().unwrap();
        proof {
            assert(storage@.slots =~= before.vacate(self.slot()).slots);
            assert(storage@ =~= before.vacate(self.slot()));
            assert forall|k: int| 0 <= k < storage@.free.len() implies storage@.free[k]
                != self.slot() by {
                assert(!before.occupied(before.free[k]));
            }
        }
        storage.free(self.index);
        value
    }
}

impl<T> GenRef<T> {
    /// The index of the slot that the handle names.
    pub fn index(&self) -> (index: usize)
        ensures
            index == self@.slot,
    {
        self.index
    }

    /// The generation that the handle captured.
    pub fn generation(&self) -> (generation: u64)
        ensures
            generation == self@.generation,
    {
        self.gen
    }

    /// Whether the handle has outlived its owner: the slot is gone, vacant,
    /// or carries another generation.
    pub fn is_stale(&self, storage: &GenRefStorage<T>) -> (stale: bool)
        ensures
            stale == !storage@.is_current(self@),
    {
        if self.index < storage.slots.len() {
            let slot = &storage.slots[self.index];
            !(slot.value.is_some() && slot.gen == self.gen)
        } else {
            true
        }
    }

    /// Takes a shared guard, or `None` where the handle is stale, the
    /// exclusive guard is out, or the shared count is full.
    pub fn try_get(self, storage: &mut GenRefStorage<T>) -> (res: Option<GenRefGuard<T>>)
        requires
            old(storage)@.wf(),
        ensures
            res is Some <==> old(storage)@.can_share(self@),
            res matches Some(guard) ==> guard@ == self@ && final(storage)@ == old(
                storage,
            )@.acquire_shared(self@.slot),
            res is None ==> final(storage)@ == old(storage)@,
            final(storage)@.wf(),
    {
        let ghost before = storage@;
        if self.index < storage.slots.len() {
            let slot = &storage.slots[self.index];
            if slot.value.is_some() && slot.gen == self.gen && !slot.mut_borrow && slot.borrows
                < u32::MAX {
                storage.slots[self.index].borrows += 1;
                proof {
                    assert(storage@.slots =~= before.acquire_shared(self@.slot).slots);
                    assert(storage@ =~= before.acquire_shared(self@.slot));
                }
                return Some(GenRefGuard(self));
            }
        }
        None
    }

    /// Takes a shared guard where the caller knows that one can be taken.
    pub fn get(self, storage: &mut GenRefStorage<T>) -> (guard: GenRefGuard<T>)
        requires
            old(storage)@.wf(),
            old(storage)@.can_share(self@),
        ensures
            guard@ == self@,
            final(storage)@ == old(storage)@.acquire_shared(self@.slot),
            final(storage)@.wf(),
    {
        self.try_get(storage).unwrap()
    }

    /// Takes the exclusive guard, or `None` where the handle is stale or a
    /// guard of either kind is out.
    pub fn try_get_mut(self, storage: &mut GenRefStorage<T>) -> (res: Option<GenRefMutGuard<T>>)
        requires
            old(storage)@.wf(),
        ensures
            res is Some <==> old(storage)@.can_exclusive(self@),
            res matches Some(guard) ==> guard@ == self@ && final(storage)@ == old(
                storage,
            )@.acquire_exclusive(self@.slot),
            res is None ==> final(storage)@ == old(storage)@,
            final(storage)@.wf(),
    {
        let ghost before = storage@;
        if self.index < storage.slots.len() {
            let slot = &storage.slots[self.index];
            if slot.value.is_some() && slot.gen == self.gen && slot.borrows == 0
                && !slot.mut_borrow {
                storage.slots[self.index].mut_borrow = true;
                proof {
                    assert(storage@.slots =~= before.acquire_exclusive(self@.slot).slots);
                    assert(storage@ =~= before.acquire_exclusive(self@.slot));
                }
                return Some(GenRefMutGuard(self));
            }
        }
        None
    }

    /// Takes the exclusive guard where the caller knows that it can be
    /// taken.
    pub fn get_mut(self, storage: &mut GenRefStorage<T>) -> (guard: GenRefMutGuard<T>)
        requires
            old(storage)@.wf(),
            old(storage)@.can_exclusive(self@),
        ensures
            guard@ == self@,
            final(storage)@ == old(storage)@.acquire_exclusive(self@.slot),
            final(storage)@.wf(),
    {
        self.try_get_mut(storage).unwrap()
    }
}

impl<T> GenRefGuard<T> {
    /// The value, readable for as long as the storage is not touched.
    pub fn read<'a>(&self, storage: &'a GenRefStorage<T>) -> (value: &'a T)
        requires
            storage@.holds_shared(self@),
        ensures
            *value == storage@.value_of(self@.slot),
    {
        storage.slots[self.0.index].value.as_ref().unwrap()
    }

    /// Ends the access: the shared count goes down by one.
    pub fn release(self, storage: &mut GenRefStorage<T>)
        requires
            old(storage)@.wf(),
            old(storage)@.holds_shared(self@),
        ensures
            final(storage)@ == old(storage)@.release_shared(self@.slot),
            final(storage)@.wf(),
    {
        let ghost before = storage@;
        storage.slots[self.0.index].borrows -= 1;
        proof {
            assert(storage@.slots =~= before.release_shared(self@.slot).slots);
            assert(storage@ =~= before.release_shared(self@.slot));
        }
    }
}

impl<T> GenRefMutGuard<T> {
    /// The value, readable for as long as the storage is not touched.
    pub fn read<'a>(&self, storage: &'a GenRefStorage<T>) -> (value: &'a T)
        requires
            storage@.holds_exclusive(self@),
        ensures
            *value == storage@.value_of(self@.slot),
    {
        storage.slots[self.0.index].value.as_ref().unwrap()
    }

    /// The value, writable; what the caller leaves behind the reference is
    /// the slot's new value, and nothing else changes.
    pub fn write<'a>(&self, storage: &'a mut GenRefStorage<T>) -> (value: &'a mut T)
        requires
            old(storage)@.wf(),
            old(storage)@.holds_exclusive(self@),
        ensures
            *value == old(storage)@.value_of(self@.slot),
            final(storage)@ == old(storage)@.store(self@.slot, *final(value)),
            final(storage)@.wf(),
    {
        proof {
            let before = storage@;
            assert forall|v: T| (#[trigger] before.store(self@.slot, v)).wf() by {
                let after = before.store(self@.slot, v);
                assert forall|k: int| 0 <= k < after.free.len() implies !after.occupied(
                    #[trigger] after.free[k],
                ) by {
                    assert(!before.occupied(before.free[k]));
                }
            }
        }
        storage.slots[self.0.index].value.as_mut().unwrap()
    }

    /// Ends the access: the exclusive flag is cleared.
    pub fn release(self, storage: &mut GenRefStorage<T>)
        requires
            old(storage)@.wf(),
            old(storage)@.holds_exclusive(self@),
        ensures
            final(storage)@ == old(storage)@.release_exclusive(self@.slot),
            final(storage)@.wf(),
    {
        let ghost before = storage@;
        storage.slots[self.0.index].mut_borrow = false;
        proof {
            assert(storage@.slots =~= before.release_exclusive(self@.slot).slots);
            assert(storage@ =~= before.release_exclusive(self@.slot));
        }
    }
}

} // verus!
