use halaqa::{
    allocate_slot, payout_cycle, CreateGroupRequest, CreateUserRequest, GroupStatus, HalaqaError,
    JoinGroupRequest, MembershipStatus, PaymentRequest, PaymentStatus, PayoutOrder, Store,
};

fn group_request(total: u32, duration: u32, order: PayoutOrder) -> CreateGroupRequest {
    CreateGroupRequest {
        name: "Circle".to_string(),
        description: "monthly pot".to_string(),
        monthly_amount: 5000,
        duration_months: duration,
        total_members: total,
        payout_order: order,
    }
}

fn join(group_id: &str, slot: Option<u32>) -> JoinGroupRequest {
    JoinGroupRequest { group_id: group_id.to_string(), preferred_slot: slot }
}

#[test]
fn payout_cycle_wraps_under_auto() {
    assert_eq!(payout_cycle(PayoutOrder::Auto, 5, 3), 2);
    assert_eq!(payout_cycle(PayoutOrder::Auto, 3, 3), 3);
    assert_eq!(payout_cycle(PayoutOrder::Auto, 1, 3), 1);
    assert_eq!(payout_cycle(PayoutOrder::Manual, 5, 3), 5);
}

#[test]
fn auto_slot_five_of_three_months_pays_in_cycle_two() {
    let mut s = Store::new();
    let g = s.create_group("creator".to_string(), 100, group_request(6, 3, PayoutOrder::Auto));
    let m = s.join_group("alice".to_string(), 101, join(&g.id, Some(5))).unwrap();
    assert_eq!(m.slot_number, 5);
    assert_eq!(m.payout_month, 2);
}

#[test]
fn manual_cycle_equals_slot() {
    let mut s = Store::new();
    let g = s.create_group("creator".to_string(), 100, group_request(4, 2, PayoutOrder::Manual));
    for slot in [3u32, 1, 4, 2] {
        let m = s.join_group("u".to_string(), 101, join(&g.id, Some(slot))).unwrap();
        assert_eq!(m.slot_number, slot);
        assert_eq!(m.payout_month, slot);
    }
}

#[test]
fn group_of_four_turns_active_on_fourth_join() {
    let mut s = Store::new();
    let g = s.create_group("creator".to_string(), 100, group_request(4, 4, PayoutOrder::Auto));
    assert_eq!(g.status, GroupStatus::Pending);
    for n in 1..=4u32 {
        s.join_group(format!("user{}", n), 200, join(&g.id, None)).unwrap();
        let now = s.get_group(&g.id).unwrap();
        assert_eq!(now.current_members, n);
        if n < 4 {
            assert_eq!(now.status, GroupStatus::Pending);
        } else {
            assert_eq!(now.status, GroupStatus::Active);
        }
    }
}

#[test]
fn three_auto_members_take_slots_in_order() {
    let mut s = Store::new();
    let g = s.create_group("creator".to_string(), 100, group_request(3, 3, PayoutOrder::Auto));
    let mut slots = Vec::new();
    let mut cycles = Vec::new();
    for user in ["a", "b", "c"] {
        let m = s.join_group(user.to_string(), 101, join(&g.id, None)).unwrap();
        slots.push(m.slot_number);
        cycles.push(m.payout_month);
    }
    assert_eq!(slots, vec![1, 2, 3]);
    assert_eq!(cycles, vec![1, 2, 3]);
    assert_eq!(s.get_group(&g.id).unwrap().status, GroupStatus::Active);
}

#[test]
fn manual_pair_preference_then_remaining_slot() {
    let mut s = Store::new();
    let g = s.create_group("creator".to_string(), 100, group_request(2, 2, PayoutOrder::Manual));
    let a = s.join_group("A".to_string(), 101, join(&g.id, Some(2))).unwrap();
    assert_eq!((a.slot_number, a.payout_month), (2, 2));
    let b = s.join_group("B".to_string(), 102, join(&g.id, None)).unwrap();
    assert_eq!((b.slot_number, b.payout_month), (1, 1));
}

#[test]
fn full_group_refuses_any_preference() {
    let mut s = Store::new();
    let g = s.create_group("creator".to_string(), 100, group_request(1, 1, PayoutOrder::Auto));
    s.join_group("a".to_string(), 101, join(&g.id, None)).unwrap();
    let before = s.memberships.len();
    assert_eq!(s.join_group("b".to_string(), 102, join(&g.id, None)).unwrap_err(), HalaqaError::GroupFull);
    assert_eq!(s.join_group("b".to_string(), 102, join(&g.id, Some(1))).unwrap_err(), HalaqaError::GroupFull);
    assert_eq!(s.join_group("b".to_string(), 102, join(&g.id, Some(9))).unwrap_err(), HalaqaError::GroupFull);
    assert_eq!(s.memberships.len(), before);
}

#[test]
fn taken_slot_is_refused_and_group_unchanged() {
    let mut s = Store::new();
    let g = s.create_group("creator".to_string(), 100, group_request(3, 3, PayoutOrder::Auto));
    s.join_group("a".to_string(), 101, join(&g.id, Some(2))).unwrap();
    let before = s.get_group(&g.id).unwrap();
    let counter = s.id_counter;
    assert_eq!(s.join_group("b".to_string(), 102, join(&g.id, Some(2))).unwrap_err(), HalaqaError::SlotUnavailable);
    assert_eq!(s.join_group("b".to_string(), 102, join(&g.id, Some(7))).unwrap_err(), HalaqaError::SlotUnavailable);
    let after = s.get_group(&g.id).unwrap();
    assert_eq!(after.available_slots, before.available_slots);
    assert_eq!(after.current_members, before.current_members);
    assert_eq!(after.status, before.status);
    assert_eq!(s.id_counter, counter);
    assert_eq!(s.memberships.len(), 1);
}

#[test]
fn no_preference_takes_smallest_free_slot() {
    let mut s = Store::new();
    let g = s.create_group("creator".to_string(), 100, group_request(5, 5, PayoutOrder::Auto));
    s.join_group("a".to_string(), 101, join(&g.id, Some(1))).unwrap();
    s.join_group("b".to_string(), 101, join(&g.id, Some(3))).unwrap();
    let c = s.join_group("c".to_string(), 101, join(&g.id, None)).unwrap();
    assert_eq!(c.slot_number, 2);
    let d = s.join_group("d".to_string(), 101, join(&g.id, None)).unwrap();
    assert_eq!(d.slot_number, 4);
}

#[test]
fn allocation_picks_minimum_of_unsorted_slots() {
    assert_eq!(allocate_slot(&vec![7, 3, 9], PayoutOrder::Auto, 4, None), Ok((3, 3)));
    assert_eq!(allocate_slot(&vec![7, 3, 9], PayoutOrder::Auto, 4, Some(9)), Ok((9, 1)));
    assert_eq!(allocate_slot(&vec![7, 3, 9], PayoutOrder::Manual, 4, Some(4)), Err(HalaqaError::SlotUnavailable));
    assert_eq!(allocate_slot(&vec![], PayoutOrder::Manual, 4, None), Err(HalaqaError::NoSlotsAvailable));
}

#[test]
fn successive_joins_get_distinct_slots() {
    let mut s = Store::new();
    let g = s.create_group("creator".to_string(), 100, group_request(6, 6, PayoutOrder::Auto));
    let mut seen = Vec::new();
    for (n, pref) in [None, Some(4), None, Some(6), None, None].into_iter().enumerate() {
        let m = s.join_group(format!("u{}", n), 101, join(&g.id, pref)).unwrap();
        assert!(!seen.contains(&m.slot_number));
        seen.push(m.slot_number);
    }
    seen.sort();
    assert_eq!(seen, vec![1, 2, 3, 4, 5, 6]);
}

#[test]
fn payment_to_unknown_group_is_not_found() {
    let mut s = Store::new();
    let r = s.make_payment("a".to_string(), 100, PaymentRequest { group_id: "nope".to_string(), cycle_number: 1 });
    assert_eq!(r.unwrap_err(), HalaqaError::NotFound);
    assert_eq!(s.payments.len(), 0);
    assert_eq!(s.id_counter, 0);
}

#[test]
fn payment_records_group_amount() {
    let mut s = Store::new();
    let g = s.create_group("creator".to_string(), 100, group_request(2, 2, PayoutOrder::Auto));
    let p = s.make_payment("a".to_string(), 150, PaymentRequest { group_id: g.id.clone(), cycle_number: 1 }).unwrap();
    assert_eq!(p.amount, 5000);
    assert_eq!(p.status, PaymentStatus::Paid);
    assert_eq!(p.paid_at, Some(150));
    assert_eq!(p.created_at, 150);
    assert_eq!(p.user_id, "a");
    assert_eq!(p.id, "1502");
    // a second payment for the same cycle is kept too
    s.make_payment("a".to_string(), 151, PaymentRequest { group_id: g.id.clone(), cycle_number: 1 }).unwrap();
    assert_eq!(s.get_user_payments(&"a".to_string(), &g.id).len(), 2);
    assert_eq!(s.get_user_payments(&"b".to_string(), &g.id).len(), 0);
}

#[test]
fn identifiers_join_time_and_counter() {
    let mut s = Store::new();
    assert_eq!(s.generate_id(1700), "17001");
    assert_eq!(s.generate_id(1700), "17002");
    assert_eq!(s.generate_id(1800), "18003");
    assert_eq!(s.id_counter, 3);
    assert_eq!(s.last_time, 1800);
}

#[test]
fn new_group_has_every_slot_free() {
    let mut s = Store::new();
    let g = s.create_group("creator".to_string(), 42, group_request(4, 4, PayoutOrder::Auto));
    assert_eq!(g.available_slots, vec![1, 2, 3, 4]);
    assert_eq!(g.current_members, 0);
    assert_eq!(g.current_cycle, 0);
    assert_eq!(g.status, GroupStatus::Pending);
    assert_eq!(g.created_by, "creator");
    assert_eq!(g.id, "421");
    let empty = s.create_group("creator".to_string(), 42, group_request(0, 0, PayoutOrder::Auto));
    assert!(empty.available_slots.is_empty());
}

#[test]
fn join_unknown_group_is_not_found() {
    let mut s = Store::new();
    assert_eq!(s.join_group("a".to_string(), 1, join("missing", None)).unwrap_err(), HalaqaError::NotFound);
}

#[test]
fn create_user_twice_already_exists() {
    let mut s = Store::new();
    let u = s.create_user("alice".to_string(), 7, CreateUserRequest { name: "Alice".to_string() }).unwrap();
    assert!(u.is_active);
    assert!(u.joined_groups.is_empty());
    let again = s.create_user("alice".to_string(), 8, CreateUserRequest { name: "Other".to_string() });
    assert_eq!(again.unwrap_err(), HalaqaError::AlreadyExists);
    assert_eq!(s.get_user(&"alice".to_string()).unwrap().name, "Alice");
}

#[test]
fn join_records_membership_and_user_groups() {
    let mut s = Store::new();
    s.create_user("alice".to_string(), 1, CreateUserRequest { name: "Alice".to_string() }).unwrap();
    let g = s.create_group("creator".to_string(), 10, group_request(2, 2, PayoutOrder::Auto));
    let m = s.join_group("alice".to_string(), 11, join(&g.id, None)).unwrap();
    assert_eq!(m.status, MembershipStatus::Active);
    assert_eq!(m.total_paid, 0);
    assert!(!m.has_received_payout);
    assert_eq!(m.joined_at, 11);
    assert_eq!(m.group_id, g.id);
    assert_eq!(s.get_user(&"alice".to_string()).unwrap().joined_groups, vec![g.id.clone()]);
    let groups = s.get_user_groups(&"alice".to_string());
    assert_eq!(groups.len(), 1);
    assert_eq!(groups[0].current_members, 1);
    assert_eq!(s.get_group_memberships(&g.id).len(), 1);
    assert!(s.get_user_groups(&"bob".to_string()).is_empty());
}

#[test]
fn same_user_may_join_twice() {
    let mut s = Store::new();
    let g = s.create_group("creator".to_string(), 10, group_request(3, 3, PayoutOrder::Auto));
    let first = s.join_group("alice".to_string(), 11, join(&g.id, None)).unwrap();
    let second = s.join_group("alice".to_string(), 12, join(&g.id, None)).unwrap();
    assert_ne!(first.slot_number, second.slot_number);
    assert_eq!(s.get_group_memberships(&g.id).len(), 2);
}

#[test]
fn available_groups_leave_out_full_ones() {
    let mut s = Store::new();
    let full = s.create_group("c".to_string(), 10, group_request(1, 1, PayoutOrder::Auto));
    let open = s.create_group("c".to_string(), 10, group_request(2, 2, PayoutOrder::Auto));
    s.join_group("a".to_string(), 11, join(&full.id, None)).unwrap();
    let avail = s.get_available_groups();
    assert_eq!(avail.len(), 1);
    assert_eq!(avail[0].id, open.id);
}

#[test]
fn greet_welcomes_by_name() {
    assert_eq!(halaqa::greet(&"Amal".to_string()), "Hello, Amal! Welcome to Halaqa Savings System!");
}

#[test]
fn joins_with_other_calls_between_get_distinct_slots() {
    let mut s = Store::new();
    let g = s.create_group("creator".to_string(), 1, group_request(3, 3, PayoutOrder::Manual));
    let first = s.join_group("a".to_string(), 2, join(&g.id, None)).unwrap();
    let other = s.create_group("creator".to_string(), 3, group_request(2, 2, PayoutOrder::Auto));
    s.join_group("b".to_string(), 4, join(&other.id, None)).unwrap();
    s.make_payment("a".to_string(), 5, PaymentRequest { group_id: g.id.clone(), cycle_number: 1 }).unwrap();
    assert_eq!(
        s.join_group("c".to_string(), 6, join(&g.id, Some(first.slot_number))).unwrap_err(),
        HalaqaError::SlotUnavailable
    );
    let second = s.join_group("c".to_string(), 7, join(&g.id, None)).unwrap();
    assert_ne!(second.slot_number, first.slot_number);
}

#[test]
fn every_generated_key_is_new() {
    let mut s = Store::new();
    let g1 = s.create_group("c".to_string(), 1, group_request(2, 2, PayoutOrder::Auto));
    for _ in 0..9 {
        s.generate_id(1);
    }
    let g2 = s.create_group("c".to_string(), 11, group_request(2, 2, PayoutOrder::Auto));
    assert_ne!(g1.id, g2.id);
    assert_eq!(s.groups.len(), 2);
    let p = s.make_payment("a".to_string(), 12, PaymentRequest { group_id: g2.id.clone(), cycle_number: 1 }).unwrap();
    assert_eq!(s.payments.len(), 1);
    assert_eq!(p.id, "1212");
}
