use vstd::prelude::*;
use crate::ident::{decimal, id_text, lemma_id_fresh};
use crate::group::lemma_remove_distinct;
use crate::slots::{cycle_of, lemma_seq_min};
use crate::records::{
    CreateGroupRequest, CreateUserRequest, CyclePayment, Group, GroupMembership, GroupStatus,
    HalaqaError, JoinGroupRequest, MembershipStatus, PaymentRequest, PaymentStatus, User,
};

verus! {

/// A record stored under a string key.
pub trait Keyed: Sized {
    spec fn key_of(&self) -> Seq<char>;

    fn key(&self) -> (r: &String)
        ensures
            r@ == self.key_of(),
    ;

    /// The two records hold the same values (lists compared by content).
    spec fn same_fields(&self, other: &Self) -> bool;

    /// A field-for-field copy.
    fn duplicate(&self) -> (r: Self)
        ensures
            r.same_fields(self),
    ;
}

/// Some record of `s` is stored under `k`.
pub open spec fn has_key<T: Keyed>(s: Seq<T>, k: Seq<char>) -> bool {
    exists|i: int| 0 <= i < s.len() && (#[trigger] s[i]).key_of() == k
}

/// The position of the record stored under `k` (meaningful when `has_key`).
pub open spec fn key_pos<T: Keyed>(s: Seq<T>, k: Seq<char>) -> int {
    choose|i: int| 0 <= i < s.len() && (#[trigger] s[i]).key_of() == k
}

/// No two records share a key.
pub open spec fn unique_keys<T: Keyed>(s: Seq<T>) -> bool {
    forall|i: int, j: int|
        0 <= i < s.len() && 0 <= j < s.len() && i != j ==> (#[trigger] s[i]).key_of() != (
        #[trigger] s[j]).key_of()
}

fn copy_strings(v: &Vec<String>) -> (r: Vec<String>)
    ensures
        r@ == v@,
{
    let mut r: Vec<String> = Vec::new();
    let mut i: usize = 0;
    while i < v.len()
        invariant
            i <= v.len(),
            r@ == v@.subrange(0, i as int),
        decreases v.len() - i,
    {
        r.push(v[i].clone());
        i = i + 1;
        assert(r@ =~= v@.subrange(0, i as int));
    }
    assert(v@.subrange(0, v.len() as int) =~= v@);
    r
}

fn copy_slots(v: &Vec<u32>) -> (r: Vec<u32>)
    ensures
        r@ == v@,
{
    let mut r: Vec<u32> = Vec::new();
    let mut i: usize = 0;
    while i < v.len()
        invariant
            i <= v.len(),
            r@ == v@.subrange(0, i as int),
        decreases v.len() - i,
    {
        r.push(v[i]);
        i = i + 1;
        assert(r@ =~= v@.subrange(0, i as int));
    }
    assert(v@.subrange(0, v.len() as int) =~= v@);
    r
}

impl Keyed for User {
    open spec fn key_of(&self) -> Seq<char> {
        self.id@
    }

    open spec fn same_fields(&self, other: &Self) -> bool {
        &&& self.id == other.id
        &&& self.name == other.name
        &&& self.created_at == other.created_at
        &&& self.is_active == other.is_active
        &&& self.joined_groups@ == other.joined_groups@
    }

    fn key(&self) -> (r: &String) {
        &self.id
    }

    fn duplicate(&self) -> (r: Self) {
        let joined_groups = copy_strings(&self.joined_groups);
        let r = User {
            id: self.id.clone(),
            name: self.name.clone(),
            created_at: self.created_at,
            is_active: self.is_active,
            joined_groups,
        };
        r
    }
}

impl Keyed for Group {
    open spec fn key_of(&self) -> Seq<char> {
        self.id@
    }

    open spec fn same_fields(&self, other: &Self) -> bool {
        &&& *self == (Group { available_slots: self.available_slots, ..*other })
        &&& self.available_slots@ == other.available_slots@
    }

    fn key(&self) -> (r: &String) {
        &self.id
    }

    fn duplicate(&self) -> (r: Self) {
        Group {
            id: self.id.clone(),
            name: self.name.clone(),
            description: self.description.clone(),
            monthly_amount: self.monthly_amount,
            duration_months: self.duration_months,
            total_members: self.total_members,
            current_members: self.current_members,
            status: self.status,
            created_by: self.created_by.clone(),
            current_cycle: self.current_cycle,
            payout_order: self.payout_order,
            created_at: self.created_at,
            available_slots: copy_slots(&self.available_slots),
        }
    }
}

impl Keyed for GroupMembership {
    open spec fn key_of(&self) -> Seq<char> {
        self.id@
    }

    open spec fn same_fields(&self, other: &Self) -> bool {
        *self == *other
    }

    fn key(&self) -> (r: &String) {
        &self.id
    }

    fn duplicate(&self) -> (r: Self) {
        GroupMembership {
            id: self.id.clone(),
            user_id: self.user_id.clone(),
            group_id: self.group_id.clone(),
            slot_number: self.slot_number,
            payout_month: self.payout_month,
            status: self.status,
            joined_at: self.joined_at,
            total_paid: self.total_paid,
            has_received_payout: self.has_received_payout,
        }
    }
}

impl Keyed for CyclePayment {
    open spec fn key_of(&self) -> Seq<char> {
        self.id@
    }

    open spec fn same_fields(&self, other: &Self) -> bool {
        *self == *other
    }

    fn key(&self) -> (r: &String) {
        &self.id
    }

    fn duplicate(&self) -> (r: Self) {
        CyclePayment {
            id: self.id.clone(),
            group_id: self.group_id.clone(),
            user_id: self.user_id.clone(),
            cycle_number: self.cycle_number,
            amount: self.amount,
            status: self.status,
            paid_at: self.paid_at,
            created_at: self.created_at,
        }
    }
}

/// The position of the record stored under `k`, if any.
fn find_key<T: Keyed>(v: &Vec<T>, k: &String) -> (r: Option<usize>)
    requires
        unique_keys(v@),
    ensures
        r is None <==> !has_key(v@, k@),
        r matches Some(i) ==> i < v.len() && i == key_pos(v@, k@) && v@[i as int].key_of() == k@,
{
    let mut i: usize = 0;
    while i < v.len()
        invariant
            i <= v.len(),
            unique_keys(v@),
            forall|j: int| 0 <= j < i ==> (#[trigger] v@[j]).key_of() != k@,
        decreases v.len() - i,
    {
        let key: &String = v[i].key();
        if key.eq(k) {
            proof {
                assert(v@[i as int].key_of() == k@);
                let p = key_pos(v@, k@);
                assert(v@[p].key_of() == k@);

            }
            return Some(i);
        }
        i = i + 1;
    }
    None
}

/// The identifier text for time `t` and counter value `c`: both in decimal,
/// side by side.
pub open spec fn id_of(t: nat, c: nat) -> Seq<char> {
    decimal(t) + decimal(c)
}

/// `k` is an identifier drawn at a time no later than `last` with a counter
/// value no greater than `count`.
pub open spec fn drawn_before(k: Seq<char>, last: u64, count: u64) -> bool {
    exists|t: nat, c: nat| t <= last && c <= count && k == #[trigger] id_of(t, c)
}

/// Every key of `s` was drawn no later than `last`, with a counter value no
/// greater than `count`.
pub open spec fn all_drawn<T: Keyed>(s: Seq<T>, last: u64, count: u64) -> bool {
    forall|i: int| 0 <= i < s.len() ==> drawn_before((#[trigger] s[i]).key_of(), last, count)
}

/// The identifier drawn next, at a time no earlier than every key of `s`,
/// is not among those keys.
pub proof fn lemma_fresh_key<T: Keyed>(s: Seq<T>, last: u64, count: u64, now: u64)
    requires
        all_drawn(s, last, count),
        last <= now,
    ensures
        !has_key(s, id_of(now as nat, count as nat + 1)),
{
    let k = id_of(now as nat, count as nat + 1);
    if has_key(s, k) {
        let i = choose|i: int| 0 <= i < s.len() && (#[trigger] s[i]).key_of() == k;
        assert(drawn_before(s[i].key_of(), last, count));
        let (t, c) = choose|t: nat, c: nat|
            t <= last && c <= count && s[i].key_of() == #[trigger] id_of(t, c);
        lemma_id_fresh(t, c, now as nat, count as nat + 1);
    }
}

proof fn lemma_all_drawn_grow<T: Keyed>(s: Seq<T>, last: u64, count: u64, last2: u64, count2: u64)
    requires
        all_drawn(s, last, count),
        last <= last2,
        count <= count2,
    ensures
        all_drawn(s, last2, count2),
{
    assert forall|i: int| 0 <= i < s.len() implies drawn_before(
        (#[trigger] s[i]).key_of(),
        last2,
        count2,
    ) by {
        assert(drawn_before(s[i].key_of(), last, count));
        let (t, c) = choose|t: nat, c: nat|
            t <= last && c <= count && s[i].key_of() == #[trigger] id_of(t, c);
        assert(s[i].key_of() == id_of(t, c));
    }
}

/// Appending a record under a new key keeps keys unique and leaves every
/// other key where it was.
proof fn lemma_push_fresh<T: Keyed>(s: Seq<T>, item: T)
    requires
        unique_keys(s),
        !has_key(s, item.key_of()),
    ensures
        unique_keys(s.push(item)),
        has_key(s.push(item), item.key_of()),
        key_pos(s.push(item), item.key_of()) == s.len(),
        forall|k: Seq<char>|
            has_key(s, k) ==> has_key(s.push(item), k) && key_pos(s.push(item), k) == key_pos(
                s,
                k,
            ),
{
    let t = s.push(item);
    assert(t[s.len() as int] == item);
    assert forall|i: int, j: int|
        0 <= i < t.len() && 0 <= j < t.len() && i != j implies (#[trigger] t[i]).key_of() != (
        #[trigger] t[j]).key_of() by {
        if i < s.len() {
            assert(t[i] == s[i]);
        }
        if j < s.len() {
            assert(t[j] == s[j]);
        }
    }
    assert forall|k: Seq<char>| has_key(s, k) implies has_key(t, k) && key_pos(t, k) == key_pos(
        s,
        k,
    ) by {
        let p = key_pos(s, k);
        assert(t[p] == s[p]);
    }
}

proof fn lemma_push_drawn<T: Keyed>(s: Seq<T>, item: T, last: u64, count: u64)
    requires
        all_drawn(s, last, count),
        drawn_before(item.key_of(), last, count),
    ensures
        all_drawn(s.push(item), last, count),
{
    let t = s.push(item);
    assert forall|i: int| 0 <= i < t.len() implies drawn_before(
        (#[trigger] t[i]).key_of(),
        last,
        count,
    ) by {
        if i < s.len() {
            assert(t[i] == s[i]);
        }
    }
}

proof fn lemma_filter_push<T>(s: Seq<T>, x: T, p: spec_fn(T) -> bool)
    ensures
        s.push(x).filter(p) == if p(x) {
            s.filter(p).push(x)
        } else {
            s.filter(p)
        },
{
    reveal(Seq::filter);
    assert(s.push(x).drop_last() =~= s);
}

proof fn lemma_filter_none<T>(s: Seq<T>, p: spec_fn(T) -> bool)
    requires
        forall|i: int| 0 <= i < s.len() ==> !p(#[trigger] s[i]),
    ensures
        s.filter(p).len() == 0,
    decreases s.len(),
{
    reveal(Seq::filter);
    if s.len() > 0 {
        let t = s.drop_last();
        assert forall|i: int| 0 <= i < t.len() implies !p(#[trigger] t[i]) by {
            assert(t[i] == s[i]);
        }
        lemma_filter_none(t, p);
        assert(!p(s[s.len() - 1]));
    }
}

/// The state a membership is created in, which no operation changes.
pub open spec fn fresh_membership(m: GroupMembership) -> bool {
    m.status == MembershipStatus::Active && m.total_paid == 0 && !m.has_received_payout
}

/// The keyed tables of users, groups, memberships and payments, the counter
/// that identifiers are drawn from, and the time of the latest draw.
pub struct Store {
    pub users: Vec<User>,
    pub groups: Vec<Group>,
    pub memberships: Vec<GroupMembership>,
    pub payments: Vec<CyclePayment>,
    pub id_counter: u64,
    pub last_time: u64,
}

impl Store {
    /// Keys are unique in every table; every group is well formed and in a
    /// state that creation and joining write; every generated key was drawn
    /// no later than `last_time` with a counter value no greater than
    /// `id_counter`; every membership names a stored group.
    pub open spec fn wf(&self) -> bool {
        &&& unique_keys(self.users@)
        &&& unique_keys(self.groups@)
        &&& unique_keys(self.memberships@)
        &&& unique_keys(self.payments@)
        &&& forall|i: int|
            0 <= i < self.groups.len() ==> (#[trigger] self.groups@[i]).wf()
                && self.groups@[i].settled()
        &&& all_drawn(self.groups@, self.last_time, self.id_counter)
        &&& all_drawn(self.memberships@, self.last_time, self.id_counter)
        &&& all_drawn(self.payments@, self.last_time, self.id_counter)
        &&& forall|i: int|
            0 <= i < self.memberships.len() ==> has_key(
                self.groups@,
                (#[trigger] self.memberships@[i]).group_id@,
            )
        &&& self.slots_held()
        &&& forall|i: int|
            0 <= i < self.groups.len() ==> self.memberships@.filter(
                in_group((#[trigger] self.groups@[i]).id@),
            ).len() == self.groups@[i].current_members
        &&& forall|i: int|
            0 <= i < self.memberships.len() ==> fresh_membership(#[trigger] self.memberships@[i])
        &&& forall|i: int, j: int|
            0 <= i < j < self.memberships.len() && (#[trigger] self.memberships@[i]).group_id
                == (#[trigger] self.memberships@[j]).group_id ==> self.memberships@[i].slot_number
                != self.memberships@[j].slot_number
    }

    /// The slot of every membership is no longer free in its group.
    pub open spec fn slots_held(&self) -> bool {
        forall|i: int|
            0 <= i < self.memberships.len() ==> !self.group(
                (#[trigger] self.memberships@[i]).group_id@,
            ).available_slots@.contains(self.memberships@[i].slot_number)
    }

    /// The group stored under `k` (meaningful when there is one).
    pub open spec fn group(&self, k: Seq<char>) -> Group {
        self.groups@[key_pos(self.groups@, k)]
    }

    /// The identifier that the next record made at time `now` receives: the
    /// time followed by the incremented counter, both in decimal.
    pub open spec fn next_id_text(&self, now: u64) -> Seq<char> {
        id_of(now as nat, self.id_counter as nat + 1)
    }

    /// A store may draw an identifier at time `now`: the counter has room and
    /// the clock has not gone back.
    pub open spec fn can_draw(&self, now: u64) -> bool {
        self.id_counter < u64::MAX && self.last_time <= now
    }

    /// An empty store whose counter and clock start at zero.
    pub fn new() -> (s: Store)
        ensures
            s.wf(),
            s.users@.len() == 0,
            s.groups@.len() == 0,
            s.memberships@.len() == 0,
            s.payments@.len() == 0,
            s.id_counter == 0,
            s.last_time == 0,
    {
        Store {
            users: Vec::new(),
            groups: Vec::new(),
            memberships: Vec::new(),
            payments: Vec::new(),
            id_counter: 0,
            last_time: 0,
        }
    }

    /// Draws a fresh identifier: bumps the counter, records `now` as the time
    /// of the latest draw, and writes `now` and the new counter value side
    /// by side.
    pub fn generate_id(&mut self, now: u64) -> (r: String)
        requires
            old(self).can_draw(now),
        ensures
            r@ == old(self).next_id_text(now),
            final(self).id_counter == old(self).id_counter + 1,
            final(self).last_time == now,
            final(self).users == old(self).users,
            final(self).groups == old(self).groups,
            final(self).memberships == old(self).memberships,
            final(self).payments == old(self).payments,
    {
        self.id_counter = self.id_counter + 1;
        self.last_time = now;
        id_text(now, self.id_counter)
    }

    /// Moves the draw bounds of a well-formed store forward to `now` and the
    /// next counter value.
    proof fn lemma_bounds_grow(&self, now: u64)
        requires
            self.can_draw(now),
            all_drawn(self.groups@, self.last_time, self.id_counter),
            all_drawn(self.memberships@, self.last_time, self.id_counter),
            all_drawn(self.payments@, self.last_time, self.id_counter),
        ensures
            all_drawn(self.groups@, now, (self.id_counter + 1) as u64),
            all_drawn(self.memberships@, now, (self.id_counter + 1) as u64),
            all_drawn(self.payments@, now, (self.id_counter + 1) as u64),
            drawn_before(self.next_id_text(now), now, (self.id_counter + 1) as u64),
    {
        lemma_all_drawn_grow(self.groups@, self.last_time, self.id_counter, now, (self.id_counter + 1) as u64);
        lemma_all_drawn_grow(self.memberships@, self.last_time, self.id_counter, now, (self.id_counter + 1) as u64);
        lemma_all_drawn_grow(self.payments@, self.last_time, self.id_counter, now, (self.id_counter + 1) as u64);
        assert(self.next_id_text(now) == id_of(now as nat, (self.id_counter + 1) as u64 as nat));
    }

    /// Registers `caller` under its own key: `AlreadyExists` if that key is
    /// taken, else a new active user with no groups.
    pub fn create_user(&mut self, caller: String, now: u64, request: CreateUserRequest) -> (r:
        Result<User, HalaqaError>)
        requires
            old(self).wf(),
        ensures
            final(self).wf(),
            r is Ok <==> !has_key(old(self).users@, caller@),
            r is Err ==> r == Err::<User, HalaqaError>(HalaqaError::AlreadyExists),
            r is Err ==> *final(self) == *old(self),
            r matches Ok(u) ==> {
                &&& u.id == caller
                &&& u.name == request.name
                &&& u.created_at == now
                &&& u.is_active
                &&& u.joined_groups@.len() == 0
                &&& final(self).users@.drop_last() == old(self).users@
                &&& final(self).users@.len() == old(self).users@.len() + 1
                &&& final(self).users@.last().same_fields(&u)
                &&& final(self).groups == old(self).groups
                &&& final(self).memberships == old(self).memberships
                &&& final(self).payments == old(self).payments
                &&& final(self).id_counter == old(self).id_counter
                &&& final(self).last_time == old(self).last_time
            },
    {
        if find_key(&self.users, &caller).is_some() {
            return Err(HalaqaError::AlreadyExists);
        }
        let user = User {
            id: caller,
            name: request.name,
            created_at: now,
            is_active: true,
            joined_groups: Vec::new(),
        };
        let stored = user.duplicate();
        let ghost before = self.users@;
        proof {
            lemma_push_fresh(before, stored);
        }
        self.users.push(stored);
        proof {
            assert(self.users@.drop_last() =~= before);
        }
        Ok(user)
    }

    /// Creates a group for `caller` under a fresh identifier and stores it.
    pub fn create_group(&mut self, caller: String, now: u64, request: CreateGroupRequest) -> (g:
        Group)
        requires
            old(self).wf(),
            old(self).can_draw(now),
        ensures
            final(self).wf(),
            g.wf(),
            g.settled(),
            g.id@ == old(self).next_id_text(now),
            !has_key(old(self).groups@, g.id@),
            g.created_by == caller,
            g.created_at == now,
            g.name == request.name,
            g.description == request.description,
            g.monthly_amount == request.monthly_amount,
            g.duration_months == request.duration_months,
            g.total_members == request.total_members,
            g.payout_order == request.payout_order,
            g.current_members == 0,
            g.current_cycle == 0,
            g.status == GroupStatus::Pending,
            g.available_slots@ == crate::group::all_slots(request.total_members),
            final(self).groups@.len() == old(self).groups@.len() + 1,
            final(self).groups@.drop_last() == old(self).groups@,
            final(self).groups@.last().same_fields(&g),
            has_key(final(self).groups@, g.id@),
            final(self).group(g.id@).same_fields(&g),
            forall|k: Seq<char>|
                has_key(old(self).groups@, k) ==> has_key(final(self).groups@, k)
                    && final(self).group(k) == old(self).group(k),
            final(self).id_counter == old(self).id_counter + 1,
            final(self).last_time == now,
            final(self).users == old(self).users,
            final(self).memberships == old(self).memberships,
            final(self).payments == old(self).payments,
    {
        let ghost before = *self;
        proof {
            before.lemma_bounds_grow(now);
            lemma_fresh_key(before.groups@, before.last_time, before.id_counter, now);
        }
        let id = self.generate_id(now);
        let g = Group::create(id, caller, now, request);
        let stored = g.duplicate();
        proof {
            lemma_push_fresh(before.groups@, stored);
            lemma_push_drawn(before.groups@, stored, now, self.id_counter);
        }
        self.groups.push(stored);
        proof {
            let after = self.groups@;
            assert(after.drop_last() =~= before.groups@);
            assert(after[before.groups@.len() as int] == stored);
            assert forall|i: int| 0 <= i < after.len() implies (#[trigger] after[i]).wf()
                && after[i].settled() by {
                if i < before.groups@.len() {
                    assert(after[i] == before.groups@[i]);
                }
            }
            assert forall|i: int| 0 <= i < self.memberships.len() implies has_key(
                after,
                (#[trigger] self.memberships@[i]).group_id@,
            ) by {
                assert(has_key(before.groups@, self.memberships@[i].group_id@));
            }
            assert forall|k: Seq<char>| has_key(before.groups@, k) implies has_key(after, k)
                && self.group(k) == before.group(k) by {
                assert(after[key_pos(before.groups@, k)] == before.groups@[key_pos(before.groups@, k)]);
            }
            assert forall|i: int| 0 <= i < self.memberships.len() implies !self.group(
                (#[trigger] self.memberships@[i]).group_id@,
            ).available_slots@.contains(self.memberships@[i].slot_number) by {
                let k = self.memberships@[i].group_id@;
                assert(has_key(before.groups@, k));
                assert(self.group(k) == before.group(k));
            }
            let ms = self.memberships@;
            assert forall|i: int| 0 <= i < ms.len() implies !in_group(g.id@)(#[trigger] ms[i]) by {
                assert(has_key(before.groups@, ms[i].group_id@));
            }
            lemma_filter_none(ms, in_group(g.id@));
            assert forall|i: int| 0 <= i < after.len() implies ms.filter(
                in_group((#[trigger] after[i]).id@),
            ).len() == after[i].current_members by {
                if i < before.groups@.len() {
                    assert(after[i] == before.groups@[i]);
                } else {
                    assert(after[i].id@ == g.id@);
                }
            }
        }
        g
    }

    /// Records that `caller` paid the group's monthly amount for a cycle:
    /// `NotFound` if the group key does not resolve, else a new payment
    /// record. Membership is not checked and repeated payments are all kept.
    pub fn make_payment(&mut self, caller: String, now: u64, request: PaymentRequest) -> (r: Result<
        CyclePayment,
        HalaqaError,
    >)
        requires
            old(self).wf(),
            old(self).can_draw(now),
        ensures
            final(self).wf(),
            r is Ok <==> has_key(old(self).groups@, request.group_id@),
            r is Err ==> r == Err::<CyclePayment, HalaqaError>(HalaqaError::NotFound),
            r is Err ==> *final(self) == *old(self),
            r matches Ok(p) ==> {
                &&& p.id@ == old(self).next_id_text(now)
                &&& !has_key(old(self).payments@, p.id@)
                &&& p.group_id == request.group_id
                &&& p.user_id == caller
                &&& p.cycle_number == request.cycle_number
                &&& p.amount == old(self).group(request.group_id@).monthly_amount
                &&& p.status == PaymentStatus::Paid
                &&& p.paid_at == Some(now)
                &&& p.created_at == now
                &&& final(self).payments@ == old(self).payments@.push(p)
                &&& final(self).users == old(self).users
                &&& final(self).groups == old(self).groups
                &&& final(self).memberships == old(self).memberships
                &&& final(self).id_counter == old(self).id_counter + 1
                &&& final(self).last_time == now
            },
    {
        let idx = match find_key(&self.groups, &request.group_id) {
            Some(i) => i,
            None => return Err(HalaqaError::NotFound),
        };
        let amount = self.groups[idx].monthly_amount;
        let ghost before = *self;
        proof {
            before.lemma_bounds_grow(now);
            lemma_fresh_key(before.payments@, before.last_time, before.id_counter, now);
        }
        let id = self.generate_id(now);
        let payment = CyclePayment {
            id,
            group_id: request.group_id,
            user_id: caller,
            cycle_number: request.cycle_number,
            amount,
            status: PaymentStatus::Paid,
            paid_at: Some(now),
            created_at: now,
        };
        let stored = payment.duplicate();
        proof {
            lemma_push_fresh(before.payments@, stored);
            lemma_push_drawn(before.payments@, stored, now, self.id_counter);
        }
        self.payments.push(stored);
        Ok(payment)
    }
}

/// `next` is the user `u` with `group_id` added at the end of its groups.
pub open spec fn user_joined(u: User, next: User, group_id: String) -> bool {
    &&& next.id == u.id
    &&& next.name == u.name
    &&& next.created_at == u.created_at
    &&& next.is_active == u.is_active
    &&& next.joined_groups@ == u.joined_groups@.push(group_id)
}

impl Store {
    /// `next` is this store after `caller` joined the group under `group_id`
    /// at time `now` and received membership `m`: the group took the slot,
    /// the membership is stored under a new key, the caller's group list (if
    /// the caller is a registered user) gained the group key, and one
    /// identifier was drawn.
    pub open spec fn admitted(
        &self,
        next: Store,
        caller: String,
        now: u64,
        group_id: String,
        m: GroupMembership,
    ) -> bool {
        let pos = key_pos(self.groups@, group_id@);
        &&& m.id@ == self.next_id_text(now)
        &&& !has_key(self.memberships@, m.id@)
        &&& m.user_id == caller
        &&& m.group_id == group_id
        &&& m.status == MembershipStatus::Active
        &&& m.joined_at == now
        &&& m.total_paid == 0
        &&& !m.has_received_payout
        &&& self.groups@[pos].available_slots@.contains(m.slot_number)
        &&& m.payout_month == cycle_of(
            self.groups@[pos].payout_order,
            m.slot_number,
            self.groups@[pos].duration_months,
        )
        &&& next.groups@ == self.groups@.update(pos, next.groups@[pos])
        &&& self.groups@[pos].joined(next.groups@[pos], m.slot_number)
        &&& next.memberships@ == self.memberships@.push(m)
        &&& next.payments == self.payments
        &&& next.id_counter == self.id_counter + 1
        &&& next.last_time == now
        &&& if has_key(self.users@, caller@) {
            let upos = key_pos(self.users@, caller@);
            &&& next.users@ == self.users@.update(upos, next.users@[upos])
            &&& user_joined(self.users@[upos], next.users@[upos], group_id)
        } else {
            next.users == self.users
        }
    }

    /// `caller` joins the group under `request.group_id`: `NotFound` if the
    /// key does not resolve, else the group's join outcome. On success the
    /// membership that binds the caller to the slot and its payout cycle is
    /// returned; on failure nothing changes. Joining twice is not prevented.
    pub fn join_group(&mut self, caller: String, now: u64, request: JoinGroupRequest) -> (r: Result<
        GroupMembership,
        HalaqaError,
    >)
        requires
            old(self).wf(),
            old(self).can_draw(now),
            has_key(old(self).groups@, request.group_id@) ==> !old(self).group(
                request.group_id@,
            ).join_undefined(request.preferred_slot),
        ensures
            final(self).wf(),
            !has_key(old(self).groups@, request.group_id@) ==> r == Err::<
                GroupMembership,
                HalaqaError,
            >(HalaqaError::NotFound),
            has_key(old(self).groups@, request.group_id@) && old(self).group(
                request.group_id@,
            ).join_result(request.preferred_slot) is Err ==> r == Err::<
                GroupMembership,
                HalaqaError,
            >(old(self).group(request.group_id@).join_result(request.preferred_slot)->Err_0),
            has_key(old(self).groups@, request.group_id@) && old(self).group(
                request.group_id@,
            ).join_result(request.preferred_slot) is Ok ==> (r matches Ok(m) && m.slot_number
                == old(self).group(request.group_id@).join_result(request.preferred_slot)->Ok_0.0
                && m.payout_month == old(self).group(request.group_id@).join_result(
                request.preferred_slot,
            )->Ok_0.1),
            r is Err ==> *final(self) == *old(self),
            r matches Ok(m) ==> old(self).admitted(*final(self), caller, now, request.group_id, m),
    {
        let idx = match find_key(&self.groups, &request.group_id) {
            Some(i) => i,
            None => return Err(HalaqaError::NotFound),
        };
        let ghost before = *self;
        let mut g = self.groups[idx].duplicate();
        proof {
            assert(before.groups@[idx as int].wf());
            assert(before.groups@[idx as int].settled());
        }
        let (slot, cycle) = match g.join(request.preferred_slot) {
            Ok(pair) => pair,
            Err(e) => return Err(e),
        };
        proof {
            if request.preferred_slot is None {
                lemma_seq_min(before.groups@[idx as int].available_slots@);
            }
            before.lemma_bounds_grow(now);
            lemma_fresh_key(before.memberships@, before.last_time, before.id_counter, now);
        }
        let id = self.generate_id(now);
        let membership = GroupMembership {
            id,
            user_id: caller.clone(),
            group_id: request.group_id.clone(),
            slot_number: slot,
            payout_month: cycle,
            status: MembershipStatus::Active,
            joined_at: now,
            total_paid: 0,
            has_received_payout: false,
        };
        self.groups.set(idx, g);
        let stored = membership.duplicate();
        proof {
            lemma_push_fresh(before.memberships@, stored);
            lemma_push_drawn(before.memberships@, stored, now, self.id_counter);
        }
        self.memberships.push(stored);
        match find_key(&self.users, &caller) {
            Some(ui) => {
                let mut u = self.users[ui].duplicate();
                u.joined_groups.push(request.group_id.clone());
                self.users.set(ui, u);
                proof {
                    let us = self.users@;
                    assert forall|i: int, j: int|
                        0 <= i < us.len() && 0 <= j < us.len() && i != j implies (
                        #[trigger] us[i]).key_of() != (#[trigger] us[j]).key_of() by {
                        assert(us[i].key_of() == before.users@[i].key_of());
                        assert(us[j].key_of() == before.users@[j].key_of());
                    }
                }
            },
            None => {},
        }
        proof {
            let gs = self.groups@;
            assert forall|i: int, j: int|
                0 <= i < gs.len() && 0 <= j < gs.len() && i != j implies (#[trigger] gs[i]).key_of()
                != (#[trigger] gs[j]).key_of() by {
                assert(gs[i].key_of() == before.groups@[i].key_of());
                assert(gs[j].key_of() == before.groups@[j].key_of());
            }
            assert forall|i: int| 0 <= i < gs.len() implies (#[trigger] gs[i]).wf()
                && gs[i].settled() by {
                if i != idx as int {
                    assert(before.groups@[i].wf());
                    assert(before.groups@[i].settled());
                }
            }
            assert forall|i: int| 0 <= i < gs.len() implies drawn_before(
                (#[trigger] gs[i]).key_of(),
                self.last_time,
                self.id_counter,
            ) by {
                assert(gs[i].key_of() == before.groups@[i].key_of());
                assert(drawn_before(before.groups@[i].key_of(), self.last_time, self.id_counter));
            }
            assert forall|k: Seq<char>| has_key(before.groups@, k) implies has_key(gs, k) by {
                let p = key_pos(before.groups@, k);
                assert(gs[p].key_of() == before.groups@[p].key_of());
            }
            let ms = self.memberships@;
            assert forall|i: int| 0 <= i < ms.len() implies has_key(
                gs,
                (#[trigger] ms[i]).group_id@,
            ) by {
                if i < before.memberships@.len() {
                    assert(ms[i] == before.memberships@[i]);
                    assert(has_key(before.groups@, before.memberships@[i].group_id@));
                } else {
                    assert(ms[i] == stored);
                    assert(before.groups@[idx as int].key_of() == request.group_id@);
                }
            }
            assert(gs =~= before.groups@.update(idx as int, gs[idx as int]));
            let old_g = before.groups@[idx as int];
            lemma_remove_distinct(old_g.available_slots@, old_g.available_slots@.index_of(slot));
            assert forall|i: int| 0 <= i < ms.len() implies fresh_membership(#[trigger] ms[i]) by {
                if i < before.memberships@.len() {
                    assert(ms[i] == before.memberships@[i]);
                }
            }
            let bm = before.memberships@;
            assert(ms == bm.push(stored));
            assert forall|i: int, j: int|
                0 <= i < j < ms.len() && (#[trigger] ms[i]).group_id == (#[trigger] ms[j]).group_id
                    implies ms[i].slot_number != ms[j].slot_number by {
                assert(ms[i] == bm[i]);
                if j < bm.len() {
                    assert(ms[j] == bm[j]);
                } else {
                    assert(ms[j] == stored);
                    assert(!before.group(bm[i].group_id@).available_slots@.contains(bm[i].slot_number));
                    assert(key_pos(before.groups@, request.group_id@) == idx as int);
                }
            }
            assert forall|i: int| 0 <= i < gs.len() implies ms.filter(
                in_group((#[trigger] gs[i]).id@),
            ).len() == gs[i].current_members by {
                lemma_filter_push(bm, stored, in_group(gs[i].id@));
                assert(bm.filter(in_group(before.groups@[i].id@)).len()
                    == before.groups@[i].current_members);
                if i == idx as int {
                    assert(gs[i].id == before.groups@[i].id);
                } else {
                    assert(gs[i] == before.groups@[i]);
                    assert(before.groups@[i].key_of() != before.groups@[idx as int].key_of());
                }
            }
            assert forall|i: int| 0 <= i < ms.len() implies !self.group(
                (#[trigger] ms[i]).group_id@,
            ).available_slots@.contains(ms[i].slot_number) by {
                let k = ms[i].group_id@;
                assert(has_key(gs, k));
                if k == request.group_id@ {
                    assert(gs[idx as int].key_of() == k);
                    assert(key_pos(gs, k) == idx as int);
                    if i < before.memberships@.len() {
                        assert(ms[i] == before.memberships@[i]);
                        assert(key_pos(before.groups@, k) == idx as int);
                    }
                } else {
                    assert(ms[i] == before.memberships@[i]);
                    let p = key_pos(before.groups@, k);
                    assert(before.groups@[p].key_of() == k);
                    assert(gs[p] == before.groups@[p]);
                    assert(key_pos(gs, k) == p);
                }
            }
        }
        Ok(membership)
    }
}

/// `r` holds copies of the records of `s`, in the same order.
pub open spec fn copies<T: Keyed>(r: Seq<T>, s: Seq<T>) -> bool {
    &&& r.len() == s.len()
    &&& forall|i: int| 0 <= i < r.len() ==> (#[trigger] r[i]).same_fields(&s[i])
}

/// A group that still takes members: pending and not full.
pub open spec fn open_for_joining(g: Group) -> bool {
    g.status == GroupStatus::Pending && g.current_members < g.total_members
}

/// Selects the groups that still take members.
pub open spec fn open_group() -> spec_fn(Group) -> bool {
    |g: Group| open_for_joining(g)
}

/// Selects the memberships of the group under `group_id`.
pub open spec fn in_group(group_id: Seq<char>) -> spec_fn(GroupMembership) -> bool {
    |m: GroupMembership| m.group_id@ == group_id
}

/// Selects the payments of the user under `user_id` to the group under
/// `group_id`.
pub open spec fn paid_by(user_id: Seq<char>, group_id: Seq<char>) -> spec_fn(CyclePayment) -> bool {
    |p: CyclePayment| p.user_id@ == user_id && p.group_id@ == group_id
}

impl Store {
    /// The groups that the user under `user_id` joined, in join order,
    /// leaving out keys that resolve to no group; empty for an unknown user.
    pub open spec fn user_groups(&self, user_id: Seq<char>) -> Seq<Group> {
        if has_key(self.users@, user_id) {
            self.users@[key_pos(self.users@, user_id)].joined_groups@.filter_map(
                |k: String|
                    if has_key(self.groups@, k@) {
                        Some(self.group(k@))
                    } else {
                        None
                    },
            )
        } else {
            Seq::empty()
        }
    }

    /// A copy of the user stored under `user_id`, if any.
    pub fn get_user(&self, user_id: &String) -> (r: Option<User>)
        requires
            self.wf(),
        ensures
            r is None <==> !has_key(self.users@, user_id@),
            r matches Some(u) ==> u.same_fields(&self.users@[key_pos(self.users@, user_id@)]),
    {
        match find_key(&self.users, user_id) {
            Some(i) => Some(self.users[i].duplicate()),
            None => None,
        }
    }

    /// A copy of the group stored under `group_id`, if any.
    pub fn get_group(&self, group_id: &String) -> (r: Option<Group>)
        requires
            self.wf(),
        ensures
            r is None <==> !has_key(self.groups@, group_id@),
            r matches Some(g) ==> g.same_fields(&self.group(group_id@)),
    {
        match find_key(&self.groups, group_id) {
            Some(i) => Some(self.groups[i].duplicate()),
            None => None,
        }
    }

    /// Copies of the groups that still take members, in table order.
    pub fn get_available_groups(&self) -> (r: Vec<Group>)
        ensures
            copies(r@, self.groups@.filter(open_group())),
    {
        let mut r: Vec<Group> = Vec::new();
        let mut i: usize = 0;
        while i < self.groups.len()
            invariant
                i <= self.groups.len(),
                copies(r@, self.groups@.subrange(0, i as int).filter(open_group())),
            decreases self.groups.len() - i,
        {
            let ghost prefix = self.groups@.subrange(0, i as int + 1);
            assert(prefix.drop_last() =~= self.groups@.subrange(0, i as int));
            assert(prefix.last() == self.groups@[i as int]);
            reveal(Seq::filter);
            let g = &self.groups[i];
            if g.status == GroupStatus::Pending && g.current_members < g.total_members {
                r.push(g.duplicate());
            }
            i = i + 1;
        }
        assert(self.groups@.subrange(0, self.groups.len() as int) =~= self.groups@);
        r
    }

    /// The memberships recorded for the group under `group_id`, in table order.
    pub fn get_group_memberships(&self, group_id: &String) -> (r: Vec<GroupMembership>)
        ensures
            r@ == self.memberships@.filter(in_group(group_id@)),
    {
        let mut r: Vec<GroupMembership> = Vec::new();
        let mut i: usize = 0;
        while i < self.memberships.len()
            invariant
                i <= self.memberships.len(),
                r@ == self.memberships@.subrange(0, i as int).filter(in_group(group_id@)),
            decreases self.memberships.len() - i,
        {
            let ghost prefix = self.memberships@.subrange(0, i as int + 1);
            assert(prefix.drop_last() =~= self.memberships@.subrange(0, i as int));
            assert(prefix.last() == self.memberships@[i as int]);
            reveal(Seq::filter);
            let m = &self.memberships[i];
            if m.group_id.eq(group_id) {
                r.push(m.duplicate());
            }
            i = i + 1;
        }
        assert(self.memberships@.subrange(0, self.memberships.len() as int) =~= self.memberships@);
        r
    }

    /// The payments that the user under `user_id` made to the group under
    /// `group_id`, in table order.
    pub fn get_user_payments(&self, user_id: &String, group_id: &String) -> (r: Vec<CyclePayment>)
        ensures
            r@ == self.payments@.filter(paid_by(user_id@, group_id@)),
    {
        let mut r: Vec<CyclePayment> = Vec::new();
        let mut i: usize = 0;
        while i < self.payments.len()
            invariant
                i <= self.payments.len(),
                r@ == self.payments@.subrange(0, i as int).filter(paid_by(user_id@, group_id@)),
            decreases self.payments.len() - i,
        {
            let ghost prefix = self.payments@.subrange(0, i as int + 1);
            assert(prefix.drop_last() =~= self.payments@.subrange(0, i as int));
            assert(prefix.last() == self.payments@[i as int]);
            reveal(Seq::filter);
            let p = &self.payments[i];
            if p.user_id.eq(user_id) && p.group_id.eq(group_id) {
                r.push(p.duplicate());
            }
            i = i + 1;
        }
        assert(self.payments@.subrange(0, self.payments.len() as int) =~= self.payments@);
        r
    }

    /// Copies of the groups that the user under `user_id` joined, in join
    /// order; keys that resolve to no group are skipped.
    pub fn get_user_groups(&self, user_id: &String) -> (r: Vec<Group>)
        requires
            self.wf(),
        ensures
            copies(r@, self.user_groups(user_id@)),
    {
        let mut r: Vec<Group> = Vec::new();
        let ui = match find_key(&self.users, user_id) {
            Some(ui) => ui,
            None => return r,
        };
        let keys = &self.users[ui].joined_groups;
        let ghost f = |k: String|
            if has_key(self.groups@, k@) {
                Some(self.group(k@))
            } else {
                None
            };
        let mut i: usize = 0;
        while i < keys.len()
            invariant
                i <= keys.len(),
                self.wf(),
                keys@ == self.users@[key_pos(self.users@, user_id@)].joined_groups@,
                f == (|k: String|
                    if has_key(self.groups@, k@) {
                        Some(self.group(k@))
                    } else {
                        None
                    }),
                copies(r@, keys@.subrange(0, i as int).filter_map(f)),
            decreases keys.len() - i,
        {
            let ghost prefix = keys@.subrange(0, i as int + 1);
            assert(prefix.drop_last() =~= keys@.subrange(0, i as int));
            if let Some(gi) = find_key(&self.groups, &keys[i]) {
                r.push(self.groups[gi].duplicate());
            }
            i = i + 1;
        }
        assert(keys@.subrange(0, keys.len() as int) =~= keys@);
        r
    }
}

/// In a well-formed store every group's members and free slots add up to its
/// total, and no member count exceeds the total.
pub proof fn lemma_stored_groups_balanced(s: Store, group_id: Seq<char>)
    requires
        s.wf(),
        has_key(s.groups@, group_id),
    ensures
        s.group(group_id).current_members + s.group(group_id).available_slots.len()
            == s.group(group_id).total_members,
        s.group(group_id).current_members <= s.group(group_id).total_members,
{
    let p = key_pos(s.groups@, group_id);
    assert(s.groups@[p].wf());
}

/// Two joins in a row to the same group never hand out the same slot.
pub proof fn lemma_store_joins_differ(
    s0: Store,
    s1: Store,
    s2: Store,
    group_id: String,
    first: (String, u64, GroupMembership),
    second: (String, u64, GroupMembership),
)
    requires
        s0.wf(),
        s1.wf(),
        has_key(s0.groups@, group_id@),
        s0.admitted(s1, first.0, first.1, group_id, first.2),
        s1.admitted(s2, second.0, second.1, group_id, second.2),
    ensures
        first.2.slot_number != second.2.slot_number,
{
    let pos = key_pos(s0.groups@, group_id@);
    let g0 = s0.groups@[pos];
    let g1 = s1.groups@[pos];
    assert(g0.wf());
    assert(g1.key_of() == group_id@);
    assert(has_key(s1.groups@, group_id@));
    assert(key_pos(s1.groups@, group_id@) == pos);
    lemma_remove_distinct(g0.available_slots@, g0.available_slots@.index_of(first.2.slot_number));
}

/// A join never hands out a slot that a stored membership of the same group
/// holds, however many other operations came between the two joins.
pub proof fn lemma_join_avoids_held_slots(
    s: Store,
    next: Store,
    caller: String,
    now: u64,
    group_id: String,
    m: GroupMembership,
    i: int,
)
    requires
        s.wf(),
        0 <= i < s.memberships@.len(),
        s.memberships@[i].group_id == group_id,
        s.admitted(next, caller, now, group_id, m),
    ensures
        m.slot_number != s.memberships@[i].slot_number,
{
    assert(!s.group(s.memberships@[i].group_id@).available_slots@.contains(
        s.memberships@[i].slot_number,
    ));
}

/// In a well-formed store the memberships recorded for a group number its
/// members; a key that names no group has none.
pub proof fn lemma_group_memberships(s: Store, group_id: Seq<char>)
    requires
        s.wf(),
    ensures
        has_key(s.groups@, group_id) ==> s.memberships@.filter(in_group(group_id)).len()
            == s.group(group_id).current_members,
        !has_key(s.groups@, group_id) ==> s.memberships@.filter(in_group(group_id)).len() == 0,
{
    if has_key(s.groups@, group_id) {
        let p = key_pos(s.groups@, group_id);
        assert(s.groups@[p].id@ == group_id);
    } else {
        let ms = s.memberships@;
        assert forall|i: int| 0 <= i < ms.len() implies !in_group(group_id)(#[trigger] ms[i]) by {
            assert(has_key(s.groups@, ms[i].group_id@));
        }
        lemma_filter_none(ms, in_group(group_id));
    }
}

} // verus!
