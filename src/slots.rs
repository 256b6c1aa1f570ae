use vstd::prelude::*;
use crate::records::{HalaqaError, PayoutOrder};

verus! {

/// The payout cycle that `slot` maps to under `order` for a group that runs
/// `duration` cycles.
pub open spec fn cycle_of(order: PayoutOrder, slot: u32, duration: u32) -> int {
    match order {
        PayoutOrder::Auto => (slot - 1) % (duration as int) + 1,
        PayoutOrder::Manual => slot as int,
    }
}

/// The cycle of `slot` is defined: the wrapping rule needs a slot and a
/// duration of at least one.
pub open spec fn cycle_defined(order: PayoutOrder, slot: u32, duration: u32) -> bool {
    order == PayoutOrder::Manual || (slot >= 1 && duration >= 1)
}

/// The smallest element of a non-empty sequence.
pub open spec fn seq_min(s: Seq<u32>) -> u32
    decreases s.len(),
{
    if s.len() <= 1 {
        s[0]
    } else {
        let m = seq_min(s.drop_last());
        if s.last() < m {
            s.last()
        } else {
            m
        }
    }
}

pub proof fn lemma_seq_min(s: Seq<u32>)
    requires
        s.len() > 0,
    ensures
        s.contains(seq_min(s)),
        forall|i: int| 0 <= i < s.len() ==> seq_min(s) <= #[trigger] s[i],
    decreases s.len(),
{
    if s.len() > 1 {
        let t = s.drop_last();
        lemma_seq_min(t);
        assert(forall|i: int| 0 <= i < t.len() ==> t[i] == s[i]);
        let k = choose|k: int| 0 <= k < t.len() && t[k] == seq_min(t);
        assert(s[k] == seq_min(t));
        assert(s[s.len() - 1] == s.last());
    } else {
        assert(s[0] == seq_min(s));
    }
}

/// The slot that an allocation picks: the preferred one if it is free, else
/// (with no preference) the smallest free one.
pub open spec fn chosen_slot(slots: Seq<u32>, preferred: Option<u32>) -> Option<u32> {
    match preferred {
        Some(p) => if slots.contains(p) {
            Some(p)
        } else {
            None
        },
        None => if slots.len() > 0 {
            Some(seq_min(slots))
        } else {
            None
        },
    }
}

/// Slot and payout cycle handed out from the free `slots`, or why none is.
pub open spec fn allocation(
    slots: Seq<u32>,
    order: PayoutOrder,
    duration: u32,
    preferred: Option<u32>,
) -> Result<(u32, u32), HalaqaError> {
    match chosen_slot(slots, preferred) {
        Some(s) => Ok((s, cycle_of(order, s, duration) as u32)),
        None => if preferred is Some {
            Err(HalaqaError::SlotUnavailable)
        } else {
            Err(HalaqaError::NoSlotsAvailable)
        },
    }
}

/// The payout cycle of an allocation can be computed.
pub open spec fn allocation_defined(
    slots: Seq<u32>,
    order: PayoutOrder,
    duration: u32,
    preferred: Option<u32>,
) -> bool {
    match chosen_slot(slots, preferred) {
        Some(s) => cycle_defined(order, s, duration),
        None => true,
    }
}

/// Payout cycle of `slot`: under `Auto`, `(slot - 1) mod duration + 1`;
/// under `Manual`, the slot itself.
pub fn payout_cycle(order: PayoutOrder, slot: u32, duration_months: u32) -> (r: u32)
    requires
        cycle_defined(order, slot, duration_months),
    ensures
        r == cycle_of(order, slot, duration_months),
{
    match order {
        PayoutOrder::Auto => (slot - 1) % duration_months + 1,
        PayoutOrder::Manual => slot,
    }
}

/// Whether `slot` is among `slots`.
pub fn holds_slot(slots: &Vec<u32>, slot: u32) -> (r: bool)
    ensures
        r == slots@.contains(slot),
{
    let mut i: usize = 0;
    while i < slots.len()
        invariant
            i <= slots.len(),
            forall|j: int| 0 <= j < i ==> slots@[j] != slot,
        decreases slots.len() - i,
    {
        if slots[i] == slot {
            return true;
        }
        i = i + 1;
    }
    false
}

/// The smallest of a non-empty list of slots.
pub fn min_slot(slots: &Vec<u32>) -> (r: u32)
    requires
        slots.len() > 0,
    ensures
        r == seq_min(slots@),
{
    let mut m: u32 = slots[0];
    let mut i: usize = 1;
    assert(slots@.subrange(0, 1).len() == 1);
    while i < slots.len()
        invariant
            1 <= i <= slots.len(),
            m == seq_min(slots@.subrange(0, i as int)),
        decreases slots.len() - i,
    {
        let ghost prev = slots@.subrange(0, i as int);
        let ghost next = slots@.subrange(0, i as int + 1);
        assert(next.drop_last() =~= prev);
        if slots[i] < m {
            m = slots[i];
        }
        i = i + 1;
    }
    assert(slots@.subrange(0, slots.len() as int) =~= slots@);
    m
}

/// Picks a slot from `available` and computes its payout cycle: the
/// preferred slot if it is free (`SlotUnavailable` if not), else the smallest
/// free slot (`NoSlotsAvailable` if none is left). Nothing is removed.
pub fn allocate_slot(
    available: &Vec<u32>,
    payout_order: PayoutOrder,
    duration_months: u32,
    preferred_slot: Option<u32>,
) -> (r: Result<(u32, u32), HalaqaError>)
    requires
        allocation_defined(available@, payout_order, duration_months, preferred_slot),
    ensures
        r == allocation(available@, payout_order, duration_months, preferred_slot),
{
    let slot = match preferred_slot {
        Some(p) => {
            if !holds_slot(available, p) {
                return Err(HalaqaError::SlotUnavailable);
            }
            p
        },
        None => {
            if available.len() == 0 {
                return Err(HalaqaError::NoSlotsAvailable);
            }
            min_slot(available)
        },
    };
    Ok((slot, payout_cycle(payout_order, slot, duration_months)))
}

} // verus!
