use vstd::prelude::*;

verus! {

/// Lifecycle state of a savings group.
#[derive(Clone, Copy, Debug, PartialEq, Eq, Structural)]
pub enum GroupStatus {
    /// Created and accepting members.
    Pending,
    /// Every slot is taken; cycles are running.
    Active,
    /// Reserved: all members present.
    Full,
    /// Reserved: every cycle has been paid out.
    Completed,
    /// Reserved: the group was called off.
    Cancelled,
}

/// State of a recorded payment.
#[derive(Clone, Copy, Debug, PartialEq, Eq, Structural)]
pub enum PaymentStatus {
    Pending,
    Paid,
    Overdue,
    Failed,
}

/// State of a member within a group.
#[derive(Clone, Copy, Debug, PartialEq, Eq, Structural)]
pub enum MembershipStatus {
    Active,
    Inactive,
    Expelled,
    Left,
}

/// How a slot number maps to the cycle in which its holder is paid out.
#[derive(Clone, Copy, Debug, PartialEq, Eq, Structural)]
pub enum PayoutOrder {
    /// Slots wrap around the group's duration.
    Auto,
    /// The slot number is the payout cycle.
    Manual,
}

/// Why an operation was refused. A refused operation changes nothing.
#[derive(Clone, Copy, Debug, PartialEq, Eq, Structural)]
pub enum HalaqaError {
    /// The group (or user) key does not resolve.
    NotFound,
    /// A user with this key is already registered.
    AlreadyExists,
    /// Every slot of the group is taken.
    GroupFull,
    /// The preferred slot is not among the available ones.
    SlotUnavailable,
    /// The group has no slot left to hand out.
    NoSlotsAvailable,
}

/// A registered user.
#[derive(Clone, Debug)]
pub struct User {
    pub id: String,
    pub name: String,
    pub created_at: u64,
    pub is_active: bool,
    /// Keys of the groups joined, in join order.
    pub joined_groups: Vec<String>,
}

/// A savings group. Amounts are in minor currency units.
#[derive(Clone, Debug)]
pub struct Group {
    pub id: String,
    pub name: String,
    pub description: String,
    pub monthly_amount: u64,
    pub duration_months: u32,
    pub total_members: u32,
    pub current_members: u32,
    pub status: GroupStatus,
    pub created_by: String,
    pub current_cycle: u32,
    pub payout_order: PayoutOrder,
    pub created_at: u64,
    /// Slot numbers not yet taken.
    pub available_slots: Vec<u32>,
}

/// The binding of a user to a slot of a group.
#[derive(Clone, Debug)]
pub struct GroupMembership {
    pub id: String,
    pub user_id: String,
    pub group_id: String,
    pub slot_number: u32,
    /// The cycle in which this member receives the pooled payout.
    pub payout_month: u32,
    pub status: MembershipStatus,
    pub joined_at: u64,
    pub total_paid: u64,
    pub has_received_payout: bool,
}

/// One contribution of a user to a group for a cycle.
#[derive(Clone, Debug)]
pub struct CyclePayment {
    pub id: String,
    pub group_id: String,
    pub user_id: String,
    pub cycle_number: u32,
    pub amount: u64,
    pub status: PaymentStatus,
    pub paid_at: Option<u64>,
    pub created_at: u64,
}

#[derive(Clone, Debug)]
pub struct CreateUserRequest {
    pub name: String,
}

#[derive(Clone, Debug)]
pub struct CreateGroupRequest {
    pub name: String,
    pub description: String,
    pub monthly_amount: u64,
    pub duration_months: u32,
    pub total_members: u32,
    pub payout_order: PayoutOrder,
}

#[derive(Clone, Debug)]
pub struct JoinGroupRequest {
    pub group_id: String,
    pub preferred_slot: Option<u32>,
}

#[derive(Clone, Debug)]
pub struct PaymentRequest {
    pub group_id: String,
    pub cycle_number: u32,
}

} // verus!
