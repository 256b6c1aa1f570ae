use vstd::prelude::*;

verus! {

/// The character of a decimal digit.
pub open spec fn digit_char(d: nat) -> char {
    if d == 0 {
        '0'
    } else if d == 1 {
        '1'
    } else if d == 2 {
        '2'
    } else if d == 3 {
        '3'
    } else if d == 4 {
        '4'
    } else if d == 5 {
        '5'
    } else if d == 6 {
        '6'
    } else if d == 7 {
        '7'
    } else if d == 8 {
        '8'
    } else {
        '9'
    }
}

/// The decimal text of `n`: its digits, most significant first, no sign and
/// no leading zeros.
pub open spec fn decimal(n: nat) -> Seq<char>
    decreases n,
{
    if n < 10 {
        seq![digit_char(n)]
    } else {
        decimal(n / 10).push(digit_char(n % 10))
    }
}

/// Relies on `format!` with `{}` on `u64`: each number is written as its
/// decimal digits, the two side by side.
#[verifier::external_body]
pub(crate) fn id_text(time: u64, count: u64) -> (r: String)
    ensures
        r@ == decimal(time as nat) + decimal(count as nat),
{
    format!("{}{}", time, count)
}

/// Decimal text is never empty, and a larger number is never written shorter.
pub proof fn lemma_decimal_len_mono(a: nat, b: nat)
    requires
        a <= b,
    ensures
        1 <= decimal(a).len() <= decimal(b).len(),
    decreases b,
{
    if b >= 10 {
        lemma_decimal_len_mono(a / 10, b / 10);
        if a >= 10 {
            lemma_decimal_len_mono(a / 10, b / 10);
        }
        lemma_decimal_len_mono(b / 10, b / 10);
    }
}

/// Different numbers have different decimal texts.
pub proof fn lemma_decimal_injective(a: nat, b: nat)
    requires
        decimal(a) == decimal(b),
    ensures
        a == b,
    decreases a + b,
{
    if a >= 10 && b >= 10 {
        assert(decimal(a).drop_last() =~= decimal(a / 10));
        assert(decimal(b).drop_last() =~= decimal(b / 10));
        lemma_decimal_injective(a / 10, b / 10);
        assert(decimal(a).last() == digit_char(a % 10));
        assert(decimal(b).last() == digit_char(b % 10));
        assert(a % 10 == b % 10);
        assert(a == 10 * (a / 10) + a % 10) by (nonlinear_arith);
        assert(b == 10 * (b / 10) + b % 10) by (nonlinear_arith);
    } else if a >= 10 {
        lemma_decimal_len_mono(a / 10, a / 10);
        assert(decimal(a).len() >= 2);
    } else if b >= 10 {
        lemma_decimal_len_mono(b / 10, b / 10);
        assert(decimal(b).len() >= 2);
    } else {
        assert(decimal(a)[0] == digit_char(a));
        assert(decimal(b)[0] == digit_char(b));
    }
}

/// An identifier drawn at time `now` with counter value `count` differs from
/// every one drawn earlier, at a time no later and with a smaller count.
pub proof fn lemma_id_fresh(t: nat, c: nat, now: nat, count: nat)
    requires
        t <= now,
        c < count,
    ensures
        decimal(t) + decimal(c) != decimal(now) + decimal(count),
{
    lemma_decimal_len_mono(t, now);
    lemma_decimal_len_mono(c, count);
    let x = decimal(t) + decimal(c);
    let y = decimal(now) + decimal(count);
    if x == y {
        assert(x.len() == decimal(t).len() + decimal(c).len());
        assert(y.len() == decimal(now).len() + decimal(count).len());
        assert(decimal(t).len() == decimal(now).len());
        assert(x.subrange(decimal(t).len() as int, x.len() as int) =~= decimal(c));
        assert(y.subrange(decimal(now).len() as int, y.len() as int) =~= decimal(count));
        lemma_decimal_injective(c, count);
    }
}

} // verus!
