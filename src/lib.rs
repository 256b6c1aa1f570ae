//! Rotating savings groups: slot allocation, group lifecycle, membership and
//! payment records, over an in-memory keyed store.
pub mod greeting;
pub mod group;
pub mod ident;
pub mod records;
pub mod slots;
pub mod store;

pub use records::{
    CreateGroupRequest, CreateUserRequest, CyclePayment, Group, GroupMembership, GroupStatus,
    HalaqaError, JoinGroupRequest, MembershipStatus, PaymentRequest, PaymentStatus, PayoutOrder,
    User,
};
pub use slots::{allocate_slot, payout_cycle};
pub use store::{Keyed, Store};
pub use greeting::greet;
