use vstd::prelude::*;
use crate::records::{CreateGroupRequest, Group, GroupStatus, HalaqaError, PayoutOrder};
use crate::slots::{allocate_slot, allocation, allocation_defined, lemma_seq_min};

verus! {

/// Slots `1..=n` in increasing order.
pub open spec fn all_slots(n: u32) -> Seq<u32> {
    Seq::new(n as nat, |i: int| (i + 1) as u32)
}

/// The entries strictly increase.
pub open spec fn ascending(s: Seq<u32>) -> bool {
    forall|i: int, j: int| 0 <= i < j < s.len() ==> s[i] < s[j]
}

/// Removing one entry keeps a strictly increasing sequence increasing.
pub proof fn lemma_remove_ascending(s: Seq<u32>, i: int)
    requires
        ascending(s),
        0 <= i < s.len(),
    ensures
        ascending(s.remove(i)),
{
    let r = s.remove(i);
    s.remove_ensures(i);
    assert forall|a: int, b: int| 0 <= a < b < r.len() implies r[a] < r[b] by {
        let a2 = if a < i { a } else { a + 1 };
        let b2 = if b < i { b } else { b + 1 };
        assert(r[a] == s[a2] && r[b] == s[b2]);
    }
}

/// Removing one entry of a sequence without duplicates leaves a sequence
/// without duplicates that holds every other entry.
pub proof fn lemma_remove_distinct(s: Seq<u32>, i: int)
    requires
        s.no_duplicates(),
        0 <= i < s.len(),
    ensures
        s.remove(i).no_duplicates(),
        forall|x: u32| s.remove(i).contains(x) <==> (s.contains(x) && x != s[i]),
{
    let r = s.remove(i);
    s.remove_ensures(i);
    assert forall|a: int, b: int| 0 <= a < r.len() && 0 <= b < r.len() && a != b implies r[a]
        != r[b] by {
        let a2 = if a < i { a } else { a + 1 };
        let b2 = if b < i { b } else { b + 1 };
        assert(r[a] == s[a2] && r[b] == s[b2]);
    }
    assert forall|x: u32| r.contains(x) <==> (s.contains(x) && x != s[i]) by {
        if r.contains(x) {
            let a = choose|a: int| 0 <= a < r.len() && r[a] == x;
            let a2 = if a < i { a } else { a + 1 };
            assert(s[a2] == x);
        }
        if s.contains(x) && x != s[i] {
            let a = choose|a: int| 0 <= a < s.len() && s[a] == x;
            if a < i {
                assert(r[a] == x);
            } else {
                assert(r[a - 1] == x);
            }
        }
    }
}

impl Group {
    /// Membership count and free slots account for every slot, and the free
    /// slots are distinct numbers in `1..=total_members`.
    pub open spec fn wf(&self) -> bool {
        &&& self.current_members <= self.total_members
        &&& self.current_members + self.available_slots.len() == self.total_members
        &&& self.available_slots@.no_duplicates()
        &&& ascending(self.available_slots@)
        &&& forall|i: int|
            0 <= i < self.available_slots.len() ==> 1 <= #[trigger] self.available_slots@[i]
                <= self.total_members
    }

    /// Only the states that creation and joining write: `Pending` until the
    /// last slot is taken, then `Active`; the cycle has not advanced.
    pub open spec fn settled(&self) -> bool {
        &&& (self.status == GroupStatus::Pending || self.status == GroupStatus::Active)
        &&& (self.status == GroupStatus::Active <==> (self.total_members > 0
            && self.current_members == self.total_members))
        &&& self.current_cycle == 0
    }

    /// What a join with `preferred` hands out: a slot and its payout cycle,
    /// or why none.
    pub open spec fn join_result(&self, preferred: Option<u32>) -> Result<(u32, u32), HalaqaError> {
        if self.current_members >= self.total_members {
            Err(HalaqaError::GroupFull)
        } else {
            allocation(self.available_slots@, self.payout_order, self.duration_months, preferred)
        }
    }

    /// A join with `preferred` gets far enough to compute a payout cycle that
    /// is not defined (wrapping over a duration of zero).
    pub open spec fn join_undefined(&self, preferred: Option<u32>) -> bool {
        self.current_members < self.total_members && !allocation_defined(
            self.available_slots@,
            self.payout_order,
            self.duration_months,
            preferred,
        )
    }

    /// `next` is this group after `slot` was taken by a new member.
    pub open spec fn joined(&self, next: Group, slot: u32) -> bool {
        let count = (self.current_members + 1) as u32;
        &&& next.available_slots@ == self.available_slots@.remove(
            self.available_slots@.index_of(slot),
        )
        &&& next == (Group {
            current_members: count,
            status: if count == self.total_members {
                GroupStatus::Active
            } else {
                self.status
            },
            available_slots: next.available_slots,
            ..*self
        })
    }

    /// A new group: no members, `Pending`, cycle 0, every slot of
    /// `1..=total_members` free.
    pub fn create(id: String, created_by: String, created_at: u64, request: CreateGroupRequest) -> (g:
        Group)
        ensures
            g.wf(),
            g.settled(),
            g.id == id,
            g.created_by == created_by,
            g.created_at == created_at,
            g.name == request.name,
            g.description == request.description,
            g.monthly_amount == request.monthly_amount,
            g.duration_months == request.duration_months,
            g.total_members == request.total_members,
            g.payout_order == request.payout_order,
            g.current_members == 0,
            g.current_cycle == 0,
            g.status == GroupStatus::Pending,
            g.available_slots@ == all_slots(request.total_members),
    {
        let total = request.total_members;
        let mut slots: Vec<u32> = Vec::new();
        let mut i: u32 = 0;
        while i < total
            invariant
                i <= total,
                slots@ == all_slots(i),
            decreases total - i,
        {
            slots.push(i + 1);
            i = i + 1;
            assert(slots@ =~= all_slots(i));
        }
        Group {
            id,
            name: request.name,
            description: request.description,
            monthly_amount: request.monthly_amount,
            duration_months: request.duration_months,
            total_members: total,
            current_members: 0,
            status: GroupStatus::Pending,
            created_by,
            current_cycle: 0,
            payout_order: request.payout_order,
            created_at,
            available_slots: slots,
        }
    }

    /// Admits one member: `GroupFull` if every slot is taken, else the slot
    /// allocation's result. On success the slot leaves the free pool, the
    /// count grows by one and a group that is now full turns `Active`. On
    /// failure the group is unchanged.
    pub fn join(&mut self, preferred_slot: Option<u32>) -> (r: Result<(u32, u32), HalaqaError>)
        requires
            old(self).wf(),
            !old(self).join_undefined(preferred_slot),
        ensures
            r == old(self).join_result(preferred_slot),
            r is Err ==> *final(self) == *old(self),
            r matches Ok((slot, _)) ==> old(self).joined(*final(self), slot),
            final(self).wf(),
            old(self).settled() ==> final(self).settled(),
    {
        if self.current_members >= self.total_members {
            return Err(HalaqaError::GroupFull);
        }
        let (slot, cycle) = match allocate_slot(
            &self.available_slots,
            self.payout_order,
            self.duration_months,
            preferred_slot,
        ) {
            Ok(pair) => pair,
            Err(e) => return Err(e),
        };
        let ghost before = *self;
        proof {
            if preferred_slot is None {
                lemma_seq_min(before.available_slots@);
            }
        }
        let idx = slot_position(&self.available_slots, slot);
        proof {
            lemma_remove_distinct(before.available_slots@, idx as int);
            lemma_remove_ascending(before.available_slots@, idx as int);
            assert(before.available_slots@.index_of(slot) == idx as int);
        }
        self.available_slots.remove(idx);
        self.current_members = self.current_members + 1;
        if self.current_members == self.total_members {
            self.status = GroupStatus::Active;
        }
        proof {
            let s = self.available_slots@;
            assert forall|i: int| 0 <= i < s.len() implies 1 <= #[trigger] s[i]
                <= self.total_members by {
                assert(before.available_slots@.remove(idx as int).contains(s[i]));
            }
        }
        Ok((slot, cycle))
    }
}

/// Where `slot` stands among `slots`.
fn slot_position(slots: &Vec<u32>, slot: u32) -> (r: usize)
    requires
        slots@.contains(slot),
        slots@.no_duplicates(),
    ensures
        r < slots.len(),
        slots@[r as int] == slot,
        slots@.index_of(slot) == r,
{
    let mut i: usize = 0;
    while i < slots.len()
        invariant
            i <= slots.len(),
            slots@.contains(slot),
            slots@.no_duplicates(),
            forall|j: int| 0 <= j < i ==> slots@[j] != slot,
        decreases slots.len() - i,
    {
        if slots[i] == slot {
            return i;
        }
        i = i + 1;
    }
    assert(false);
    0
}

/// Every successful join keeps the books balanced: members plus free slots
/// still make up the group's total, and the free slots stay distinct and in
/// range.
pub proof fn lemma_join_keeps_balance(g: Group, preferred: Option<u32>, next: Group)
    requires
        g.wf(),
        g.join_result(preferred) is Ok,
        g.joined(next, g.join_result(preferred)->Ok_0.0),
    ensures
        next.wf(),
        next.current_members + next.available_slots.len() == next.total_members,
{
    let slot = g.join_result(preferred)->Ok_0.0;
    let s = g.available_slots@;
    if preferred is None {
        lemma_seq_min(s);
    }
    let idx = s.index_of(slot);
    lemma_remove_distinct(s, idx);
    lemma_remove_ascending(s, idx);
    assert forall|i: int| 0 <= i < next.available_slots.len() implies 1
        <= #[trigger] next.available_slots@[i] <= next.total_members by {
        assert(s.remove(idx).contains(next.available_slots@[i]));
    }
}

/// A full group refuses every join with `GroupFull`, whatever slot is asked for.
pub proof fn lemma_full_group_refuses(g: Group, preferred: Option<u32>)
    requires
        g.current_members == g.total_members,
    ensures
        g.join_result(preferred) == Err::<(u32, u32), HalaqaError>(HalaqaError::GroupFull),
{
}

/// Asking for a slot that is not free fails with `SlotUnavailable` (when the
/// group is not full).
pub proof fn lemma_taken_slot_refused(g: Group, slot: u32)
    requires
        g.current_members < g.total_members,
        !g.available_slots@.contains(slot),
    ensures
        g.join_result(Some(slot)) == Err::<(u32, u32), HalaqaError>(HalaqaError::SlotUnavailable),
{
}

/// A join without a preference gets the smallest free slot.
pub proof fn lemma_no_preference_takes_smallest(g: Group)
    requires
        g.join_result(None) is Ok,
    ensures
        g.available_slots@.contains(g.join_result(None)->Ok_0.0),
        forall|i: int|
            0 <= i < g.available_slots.len() ==> g.join_result(None)->Ok_0.0
                <= #[trigger] g.available_slots@[i],
{
    lemma_seq_min(g.available_slots@);
}

/// Under `Manual` order the payout cycle is the slot number.
pub proof fn lemma_manual_cycle_is_slot(g: Group, preferred: Option<u32>)
    requires
        g.payout_order == PayoutOrder::Manual,
        g.join_result(preferred) is Ok,
    ensures
        g.join_result(preferred)->Ok_0.1 == g.join_result(preferred)->Ok_0.0,
{
}

/// A pending group turns `Active` on the join that fills its last slot, and
/// stays `Pending` on every earlier one.
pub proof fn lemma_active_exactly_when_full(g: Group, slot: u32, next: Group)
    requires
        g.status == GroupStatus::Pending,
        g.current_members < g.total_members,
        g.joined(next, slot),
    ensures
        next.status == GroupStatus::Active <==> next.current_members == next.total_members,
        next.status == GroupStatus::Pending <==> next.current_members < next.total_members,
{
}

/// Two joins in a row never hand out the same slot.
pub proof fn lemma_successive_joins_differ(
    g: Group,
    first: Option<u32>,
    next: Group,
    second: Option<u32>,
)
    requires
        g.wf(),
        g.join_result(first) is Ok,
        g.joined(next, g.join_result(first)->Ok_0.0),
        next.join_result(second) is Ok,
    ensures
        next.join_result(second)->Ok_0.0 != g.join_result(first)->Ok_0.0,
{
    let slot = g.join_result(first)->Ok_0.0;
    let s = g.available_slots@;
    if first is None {
        lemma_seq_min(s);
    }
    lemma_remove_distinct(s, s.index_of(slot));
    if second is None {
        lemma_seq_min(next.available_slots@);
    }
}

} // verus!
