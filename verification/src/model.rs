//! The arena as its contracts see it.
//!
//! An arena is a sequence of slots and a list of the slots that wait for
//! reuse. Every operation of the library is a function from one such state to
//! the next; the executable code is proved to compute exactly these functions.

use vstd::prelude::*;

verus! {

/// The terminal generation. A slot freed while it carries this generation is
/// retired: it keeps the generation and never returns to the free list.
pub const LAST_GENERATION: u64 = 0xffff_ffff_ffff_ffff;

/// The largest number of shared guards that one slot can count.
pub const MAX_SHARED: u32 = 0xffff_ffff;

/// One slot: its bookkeeping and, while an owner exists, its value.
pub struct SlotState<T> {
    /// Advanced each time the slot is freed.
    pub generation: nat,
    /// The number of shared guards that are outstanding.
    pub shared_count: nat,
    /// Whether the exclusive guard is outstanding.
    pub exclusive_held: bool,
    /// The value, from the owner's construction to its destruction.
    pub value: Option<T>,
}

impl<T> SlotState<T> {
    /// A slot that was never used, as fresh storage starts out.
    pub open spec fn fresh() -> Self {
        SlotState { generation: 0, shared_count: 0, exclusive_held: false, value: None }
    }

    /// An owner exists.
    pub open spec fn occupied(self) -> bool {
        self.value is Some
    }

    /// No guard is outstanding.
    pub open spec fn idle(self) -> bool {
        self.shared_count == 0 && !self.exclusive_held
    }

    /// The counters fit their machine types, shared and exclusive access
    /// exclude each other, and a slot without an owner has no guards.
    pub open spec fn wf(self) -> bool {
        &&& self.generation <= LAST_GENERATION
        &&& self.shared_count <= MAX_SHARED
        &&& !(self.shared_count > 0 && self.exclusive_held)
        &&& (!self.occupied() ==> self.idle())
    }
}

/// What a weak handle carries: a slot and the generation seen when the
/// handle was taken.
pub struct Handle {
    pub slot: nat,
    pub generation: nat,
}

/// The whole arena: the slots by index, and the free list, last in first out.
#[verifier::ext_equal]
pub struct ArenaState<T> {
    pub slots: Seq<SlotState<T>>,
    pub free: Seq<nat>,
}

impl<T> ArenaState<T> {
    /// The arena before anything was allocated.
    pub open spec fn empty() -> Self {
        ArenaState { slots: Seq::empty(), free: Seq::empty() }
    }

    pub open spec fn has_slot(self, slot: nat) -> bool {
        slot < self.slots.len()
    }

    /// The slot exists and has an owner.
    pub open spec fn occupied(self, slot: nat) -> bool {
        self.has_slot(slot) && self.slots[slot as int].occupied()
    }

    /// The slot waits on the free list.
    pub open spec fn pooled(self, slot: nat) -> bool {
        self.free.contains(slot)
    }

    /// The slot has no owner and will never get one again.
    pub open spec fn retired(self, slot: nat) -> bool {
        self.has_slot(slot) && !self.occupied(slot) && !self.pooled(slot)
    }

    /// The slot exists and no guard on it is outstanding.
    pub open spec fn idle(self, slot: nat) -> bool {
        self.has_slot(slot) && self.slots[slot as int].idle()
    }

    /// The value that the owner of `slot` holds.
    pub open spec fn value_of(self, slot: nat) -> T
        recommends
            self.occupied(slot),
    {
        self.slots[slot as int].value->0
    }

    /// Every slot is well formed, and the free list names existing slots
    /// without an owner, none of them twice.
    pub open spec fn wf(self) -> bool {
        &&& forall|i: int| 0 <= i < self.slots.len() ==> (#[trigger] self.slots[i]).wf()
        &&& forall|k: int|
            0 <= k < self.free.len() ==> self.has_slot(#[trigger] self.free[k]) && !self.occupied(
                self.free[k],
            )
        &&& forall|j: int, k: int|
            0 <= j < k < self.free.len() ==> #[trigger] self.free[j] != #[trigger] self.free[k]
    }

    /// The handle that the owner of `slot` gives out now.
    pub open spec fn handle_of(self, slot: nat) -> Handle {
        Handle { slot, generation: self.slots[slot as int].generation }
    }

    /// The handle's owner is still there: the slot is occupied and carries
    /// the generation that the handle captured. A handle that is not current
    /// is stale.
    pub open spec fn is_current(self, h: Handle) -> bool {
        self.occupied(h.slot) && self.slots[h.slot as int].generation == h.generation
    }

    /// A shared guard can be taken through `h`: the handle is current, no
    /// exclusive guard is out, and the count has room for one more.
    pub open spec fn can_share(self, h: Handle) -> bool {
        &&& self.is_current(h)
        &&& !self.slots[h.slot as int].exclusive_held
        &&& self.slots[h.slot as int].shared_count < MAX_SHARED
    }

    /// The exclusive guard can be taken through `h`: the handle is current
    /// and no guard of either kind is out.
    pub open spec fn can_exclusive(self, h: Handle) -> bool {
        self.is_current(h) && self.idle(h.slot)
    }

    /// The owner of `slot` can be destroyed: it exists and no guard derived
    /// from it is alive.
    pub open spec fn can_destroy(self, slot: nat) -> bool {
        self.occupied(slot) && self.idle(slot)
    }

    /// A shared guard taken through `h` can be alive.
    pub open spec fn holds_shared(self, h: Handle) -> bool {
        self.is_current(h) && self.slots[h.slot as int].shared_count > 0
    }

    /// The exclusive guard taken through `h` can be alive.
    pub open spec fn holds_exclusive(self, h: Handle) -> bool {
        self.is_current(h) && self.slots[h.slot as int].exclusive_held
    }

    /// The state with one slot replaced.
    pub open spec fn with_slot(self, slot: nat, s: SlotState<T>) -> Self {
        ArenaState { slots: self.slots.update(slot as int, s), free: self.free }
    }

    /// The slot that the next allocation uses: the last one freed, or a new
    /// one behind all others.
    pub open spec fn next_slot(self) -> nat {
        if self.free.len() > 0 {
            self.free.last()
        } else {
            self.slots.len()
        }
    }

    /// A slot leaves the free list with its generation carried forward, or
    /// fresh storage is added with generation zero and no guards.
    pub open spec fn reserve(self) -> Self {
        if self.free.len() > 0 {
            ArenaState { slots: self.slots, free: self.free.drop_last() }
        } else {
            ArenaState { slots: self.slots.push(SlotState::fresh()), free: self.free }
        }
    }

    /// The value of `slot` becomes `value`; nothing else changes.
    pub open spec fn store(self, slot: nat, value: T) -> Self {
        self.with_slot(slot, SlotState { value: Some(value), ..self.slots[slot as int] })
    }

    /// An owner is constructed: a slot is reserved and the value written
    /// into it.
    pub open spec fn allocate(self, value: T) -> Self {
        self.reserve().store(self.next_slot(), value)
    }

    /// The value leaves `slot`; nothing else changes.
    pub open spec fn vacate(self, slot: nat) -> Self {
        self.with_slot(slot, SlotState { value: None, ..self.slots[slot as int] })
    }

    /// A vacated slot is given back: at the terminal generation it is left
    /// alone for good, otherwise its generation advances and it joins the
    /// free list.
    pub open spec fn release(self, slot: nat) -> Self {
        let s = self.slots[slot as int];
        if s.generation == LAST_GENERATION {
            self
        } else {
            ArenaState {
                slots: self.slots.update(
                    slot as int,
                    SlotState { generation: s.generation + 1, ..s },
                ),
                free: self.free.push(slot),
            }
        }
    }

    /// An owner is destroyed: its value leaves the slot and the slot is
    /// given back.
    pub open spec fn destroy(self, slot: nat) -> Self {
        self.vacate(slot).release(slot)
    }

    /// One more shared guard on `slot`.
    pub open spec fn acquire_shared(self, slot: nat) -> Self {
        let s = self.slots[slot as int];
        self.with_slot(slot, SlotState { shared_count: s.shared_count + 1, ..s })
    }

    /// One shared guard on `slot` is released.
    pub open spec fn release_shared(self, slot: nat) -> Self {
        let s = self.slots[slot as int];
        self.with_slot(slot, SlotState { shared_count: (s.shared_count - 1) as nat, ..s })
    }

    /// The exclusive guard on `slot` is taken.
    pub open spec fn acquire_exclusive(self, slot: nat) -> Self {
        self.with_slot(slot, SlotState { exclusive_held: true, ..self.slots[slot as int] })
    }

    /// The exclusive guard on `slot` is released.
    pub open spec fn release_exclusive(self, slot: nat) -> Self {
        self.with_slot(slot, SlotState { exclusive_held: false, ..self.slots[slot as int] })
    }
}

/// One operation on the arena, as a caller can attempt it.
pub enum Step<T> {
    /// An owner is constructed for the value.
    Construct(T),
    /// The owner of the slot is destroyed.
    Destroy(nat),
    /// A shared guard is asked for through the handle.
    Share(Handle),
    /// A shared guard taken through the handle is released.
    Unshare(Handle),
    /// The exclusive guard is asked for through the handle.
    Lock(Handle),
    /// The exclusive guard taken through the handle is released.
    Unlock(Handle),
    /// The value is replaced through the exclusive guard.
    Write(Handle, T),
}

impl<T> ArenaState<T> {
    /// The state after one attempt. An attempt that the library refuses, or
    /// that its contract rules out, leaves the state as it is.
    pub open spec fn step(self, step: Step<T>) -> Self {
        match step {
            Step::Construct(value) => self.allocate(value),
            Step::Destroy(slot) => if self.can_destroy(slot) {
                self.destroy(slot)
            } else {
                self
            },
            Step::Share(h) => if self.can_share(h) {
                self.acquire_shared(h.slot)
            } else {
                self
            },
            Step::Unshare(h) => if self.holds_shared(h) {
                self.release_shared(h.slot)
            } else {
                self
            },
            Step::Lock(h) => if self.can_exclusive(h) {
                self.acquire_exclusive(h.slot)
            } else {
                self
            },
            Step::Unlock(h) => if self.holds_exclusive(h) {
                self.release_exclusive(h.slot)
            } else {
                self
            },
            Step::Write(h, value) => if self.holds_exclusive(h) {
                self.store(h.slot, value)
            } else {
                self
            },
        }
    }

    /// The state after a whole history of attempts, first to last.
    pub open spec fn run(self, steps: Seq<Step<T>>) -> Self
        decreases steps.len(),
    {
        if steps.len() == 0 {
            self
        } else {
            self.run(steps.drop_last()).step(steps.last())
        }
    }
}

} // verus!
