//! What holds of the arena as a whole, proved over the states of
//! [`crate::model`].

use crate::model::{ArenaState, Handle, SlotState, Step, LAST_GENERATION, MAX_SHARED};
use vstd::prelude::*;

verus! {

/// Every attempt keeps the arena well formed.
pub proof fn lemma_step_keeps_wf<T>(s: ArenaState<T>, step: Step<T>)
    requires
        s.wf(),
    ensures
        s.step(step).wf(),
{
    let t = s.step(step);
    match step {
        Step::Construct(value) => {
            lemma_allocate_keeps_wf(s, value);
        },
        Step::Destroy(slot) => {
            if s.can_destroy(slot) {
                lemma_destroy_keeps_wf(s, slot);
            }
        },
        Step::Share(h) => {
            assert forall|k: int| 0 <= k < t.free.len() implies !t.occupied(#[trigger] t.free[k]) by {
                assert(!s.occupied(s.free[k]));
            }
        },
        Step::Unshare(h) => {
            assert forall|k: int| 0 <= k < t.free.len() implies !t.occupied(#[trigger] t.free[k]) by {
                assert(!s.occupied(s.free[k]));
            }
        },
        Step::Lock(h) => {
            assert forall|k: int| 0 <= k < t.free.len() implies !t.occupied(#[trigger] t.free[k]) by {
                assert(!s.occupied(s.free[k]));
            }
        },
        Step::Unlock(h) => {
            assert forall|k: int| 0 <= k < t.free.len() implies !t.occupied(#[trigger] t.free[k]) by {
                assert(!s.occupied(s.free[k]));
            }
        },
        Step::Write(h, value) => {
            assert forall|k: int| 0 <= k < t.free.len() implies !t.occupied(#[trigger] t.free[k]) by {
                assert(!s.occupied(s.free[k]));
            }
        },
    }
}

/// Constructing an owner keeps the arena well formed.
pub proof fn lemma_allocate_keeps_wf<T>(s: ArenaState<T>, value: T)
    requires
        s.wf(),
    ensures
        s.allocate(value).wf(),
        s.allocate(value).occupied(s.next_slot()),
        s.allocate(value).idle(s.next_slot()),
        s.allocate(value).value_of(s.next_slot()) == value,
{
    let t = s.allocate(value);
    let slot = s.next_slot();
    if s.free.len() > 0 {
        assert(s.has_slot(s.free[s.free.len() - 1]));
        assert(!s.occupied(s.free[s.free.len() - 1]));
        assert(s.slots[slot as int].wf());
        assert forall|k: int| 0 <= k < t.free.len() implies t.has_slot(#[trigger] t.free[k])
            && !t.occupied(t.free[k]) by {
            assert(t.free[k] == s.free[k]);
            assert(s.free[k] != s.free[s.free.len() - 1]);
            assert(!s.occupied(s.free[k]));
        }
        assert forall|j: int, k: int| 0 <= j < k < t.free.len() implies #[trigger] t.free[j]
            != #[trigger] t.free[k] by {
            assert(t.free[j] == s.free[j]);
            assert(t.free[k] == s.free[k]);
        }
    } else {
        assert(SlotState::<T>::fresh().wf());
    }
}

/// Destroying an owner keeps the arena well formed.
pub proof fn lemma_destroy_keeps_wf<T>(s: ArenaState<T>, slot: nat)
    requires
        s.wf(),
        s.can_destroy(slot),
    ensures
        s.destroy(slot).wf(),
        !s.destroy(slot).occupied(slot),
{
    let t = s.destroy(slot);
    assert(s.slots[slot as int].wf());
    assert forall|k: int| 0 <= k < s.free.len() implies #[trigger] s.free[k] != slot by {
        assert(!s.occupied(s.free[k]));
    }
    assert forall|k: int| 0 <= k < t.free.len() implies t.has_slot(#[trigger] t.free[k])
        && !t.occupied(t.free[k]) by {
        if k < s.free.len() {
            assert(t.free[k] == s.free[k]);
            assert(!s.occupied(s.free[k]));
        }
    }
    assert forall|j: int, k: int| 0 <= j < k < t.free.len() implies #[trigger] t.free[j]
        != #[trigger] t.free[k] by {
        if k < s.free.len() {
            assert(t.free[j] == s.free[j]);
            assert(t.free[k] == s.free[k]);
        } else {
            assert(t.free[j] == s.free[j]);
        }
    }
}

/// Every history of attempts keeps the arena well formed.
pub proof fn lemma_run_keeps_wf<T>(s: ArenaState<T>, steps: Seq<Step<T>>)
    requires
        s.wf(),
    ensures
        s.run(steps).wf(),
    decreases steps.len(),
{
    if steps.len() > 0 {
        lemma_run_keeps_wf(s, steps.drop_last());
        lemma_step_keeps_wf(s.run(steps.drop_last()), steps.last());
    }
}

impl<T> ArenaState<T> {
    /// The handle can never pass the generation check again: its slot has
    /// moved on to a later generation, or was retired.
    pub open spec fn outlived(self, h: Handle) -> bool {
        self.has_slot(h.slot) && (self.slots[h.slot as int].generation > h.generation
            || self.retired(h.slot))
    }
}

/// No attempt brings an outlived handle back: generations only grow, and a
/// retired slot stays retired.
pub proof fn lemma_step_keeps_outlived<T>(s: ArenaState<T>, h: Handle, step: Step<T>)
    requires
        s.wf(),
        s.outlived(h),
    ensures
        s.step(step).outlived(h),
{
    let t = s.step(step);
    match step {
        Step::Construct(value) => {
            if s.free.len() > 0 {
                let reused = s.free[s.free.len() - 1];
                assert(s.free.contains(reused));
                assert(s.has_slot(reused));
                if s.retired(h.slot) {
                    assert(reused != h.slot);
                    assert forall|k: int| 0 <= k < t.free.len() implies t.free[k] != h.slot by {
                        assert(t.free[k] == s.free[k]);
                        assert(s.free.contains(s.free[k]));
                    }
                }
            }
        },
        Step::Destroy(slot) => {
            if s.can_destroy(slot) && s.retired(h.slot) {
                assert(slot != h.slot);
                assert forall|k: int| 0 <= k < t.free.len() implies t.free[k] != h.slot by {
                    if k < s.free.len() {
                        assert(t.free[k] == s.free[k]);
                        assert(s.free.contains(s.free[k]));
                    }
                }
            }
        },
        Step::Share(g) => {},
        Step::Unshare(g) => {},
        Step::Lock(g) => {},
        Step::Unlock(g) => {},
        Step::Write(g, value) => {},
    }
}

/// An outlived handle stays outlived through every history of attempts.
pub proof fn lemma_run_keeps_outlived<T>(s: ArenaState<T>, h: Handle, steps: Seq<Step<T>>)
    requires
        s.wf(),
        s.outlived(h),
    ensures
        s.run(steps).outlived(h),
    decreases steps.len(),
{
    if steps.len() > 0 {
        lemma_run_keeps_outlived(s, h, steps.drop_last());
        lemma_run_keeps_wf(s, steps.drop_last());
        lemma_step_keeps_outlived(s.run(steps.drop_last()), h, steps.last());
    }
}

/// Right after an owner is constructed, a handle taken from it can be
/// exchanged for a shared guard and for the exclusive guard.
pub proof fn law_fresh_handle_is_available<T>(s: ArenaState<T>, value: T)
    requires
        s.wf(),
    ensures
        ({
            let built = s.allocate(value);
            let h = built.handle_of(s.next_slot());
            &&& built.is_current(h)
            &&& built.can_share(h)
            &&& built.can_exclusive(h)
            &&& built.value_of(h.slot) == value
        }),
{
    lemma_allocate_keeps_wf(s, value);
}

/// Once an owner is destroyed, every handle that was taken from it is stale,
/// and stays stale whatever is attempted afterwards: no shared guard and no
/// exclusive guard can ever be had through it again.
pub proof fn law_destroyed_owner_strands_handles<T>(
    s: ArenaState<T>,
    h: Handle,
    steps: Seq<Step<T>>,
)
    requires
        s.wf(),
        s.is_current(h),
        s.can_destroy(h.slot),
    ensures
        ({
            let later = s.destroy(h.slot).run(steps);
            &&& !later.is_current(h)
            &&& !later.can_share(h)
            &&& !later.can_exclusive(h)
        }),
{
    let gone = s.destroy(h.slot);
    lemma_destroy_keeps_wf(s, h.slot);
    assert(gone.outlived(h)) by {
        if s.slots[h.slot as int].generation == LAST_GENERATION {
            assert forall|k: int| 0 <= k < s.free.len() implies s.free[k] != h.slot by {
                assert(!s.occupied(s.free[k]));
            }
        }
    }
    lemma_run_keeps_outlived(gone, h, steps);
}

/// While a shared guard is alive, the exclusive guard cannot be taken,
/// through whichever handle to the slot.
pub proof fn law_shared_guard_excludes_exclusive<T>(s: ArenaState<T>, h: Handle, other: Handle)
    requires
        s.wf(),
        s.holds_shared(h),
        other.slot == h.slot,
    ensures
        !s.can_exclusive(other),
{
}

/// While the exclusive guard is alive, neither a shared guard nor a second
/// exclusive guard can be taken, through whichever handle to the slot.
pub proof fn law_exclusive_guard_excludes_all<T>(s: ArenaState<T>, h: Handle, other: Handle)
    requires
        s.wf(),
        s.holds_exclusive(h),
        other.slot == h.slot,
    ensures
        !s.can_share(other),
        !s.can_exclusive(other),
{
}

/// Taking a guard makes it alive, and releasing it gives back the state
/// from before it was taken.
pub proof fn law_release_undoes_acquire<T>(s: ArenaState<T>, h: Handle)
    requires
        s.wf(),
    ensures
        s.can_share(h) ==> s.acquire_shared(h.slot).holds_shared(h) && s.acquire_shared(
            h.slot,
        ).release_shared(h.slot) == s,
        s.can_exclusive(h) ==> s.acquire_exclusive(h.slot).holds_exclusive(h)
            && s.acquire_exclusive(h.slot).release_exclusive(h.slot) == s,
{
    if s.can_share(h) {
        assert(s.acquire_shared(h.slot).release_shared(h.slot) =~= s);
    }
    if s.can_exclusive(h) {
        assert(s.acquire_exclusive(h.slot).release_exclusive(h.slot) =~= s);
    }
}

/// Once every guard on its slot is released, a current handle can again be
/// exchanged for a shared guard and for the exclusive guard.
pub proof fn law_idle_slot_is_available<T>(s: ArenaState<T>, h: Handle)
    requires
        s.wf(),
        s.is_current(h),
        s.idle(h.slot),
    ensures
        s.can_share(h),
        s.can_exclusive(h),
{
}

/// Shared guards coexist: with one alive, another can be taken as long as
/// the count has room, and then both are alive.
pub proof fn law_shared_guards_coexist<T>(s: ArenaState<T>, h: Handle, other: Handle)
    requires
        s.wf(),
        s.holds_shared(h),
        s.is_current(other),
        other.slot == h.slot,
        s.slots[h.slot as int].shared_count < MAX_SHARED,
    ensures
        s.can_share(other),
        s.acquire_shared(other.slot).holds_shared(h),
        s.acquire_shared(other.slot).holds_shared(other),
        s.acquire_shared(other.slot).slots[h.slot as int].shared_count == s.slots[h.slot as int].shared_count + 1,
{
    assert(s.slots[h.slot as int].wf());
}

/// Each release of a shared guard lowers the count of its slot by exactly
/// one and touches nothing else, so two guards may be released in either
/// order.
pub proof fn law_shared_release_order<T>(s: ArenaState<T>, a: Handle, b: Handle)
    requires
        s.wf(),
        s.holds_shared(a),
        s.holds_shared(b),
        a.slot == b.slot ==> s.slots[a.slot as int].shared_count >= 2,
    ensures
        s.release_shared(a.slot).slots[a.slot as int].shared_count == s.slots[a.slot as int].shared_count - 1,
        s.release_shared(a.slot).holds_shared(b),
        s.release_shared(b.slot).holds_shared(a),
        s.release_shared(a.slot).release_shared(b.slot) == s.release_shared(
            b.slot,
        ).release_shared(a.slot),
        a.slot == b.slot ==> s.release_shared(a.slot).release_shared(b.slot).slots[a.slot as int].shared_count
            == s.slots[a.slot as int].shared_count - 2,
{
    assert(s.release_shared(a.slot).release_shared(b.slot) =~= s.release_shared(
        b.slot,
    ).release_shared(a.slot));
}

/// A slot that is freed below the terminal generation is the next one to be
/// used again. The new owner's handle can be exchanged for either guard,
/// while a handle of the previous owner is stale and stays stale whatever is
/// attempted afterwards.
pub proof fn law_reuse_separates_owners<T>(
    s: ArenaState<T>,
    h: Handle,
    value: T,
    steps: Seq<Step<T>>,
)
    requires
        s.wf(),
        s.is_current(h),
        s.can_destroy(h.slot),
        h.generation < LAST_GENERATION,
    ensures
        ({
            let gone = s.destroy(h.slot);
            let reused = gone.allocate(value);
            let fresh = reused.handle_of(h.slot);
            let later = reused.run(steps);
            &&& gone.next_slot() == h.slot
            &&& fresh.generation == h.generation + 1
            &&& reused.can_share(fresh)
            &&& reused.can_exclusive(fresh)
            &&& reused.value_of(h.slot) == value
            &&& !later.is_current(h)
            &&& !later.can_share(h)
            &&& !later.can_exclusive(h)
        }),
{
    let gone = s.destroy(h.slot);
    let reused = gone.allocate(value);
    lemma_destroy_keeps_wf(s, h.slot);
    lemma_allocate_keeps_wf(gone, value);
    assert(gone.free.last() == h.slot);
    assert(reused.outlived(h));
    lemma_run_keeps_outlived(reused, h, steps);
}

/// While a guard derived from an owner is alive, the owner cannot be
/// destroyed: the condition that `destroy` asks of its caller fails.
pub proof fn law_guard_blocks_destruction<T>(s: ArenaState<T>, h: Handle)
    requires
        s.wf(),
        s.holds_shared(h) || s.holds_exclusive(h),
    ensures
        !s.can_destroy(h.slot),
{
}

} // verus!
