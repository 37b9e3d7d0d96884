//! Numbers in decimal.
use vstd::prelude::*;
use crate::text::{all_digits, decimal, digits_value, lemma_decimal_round_trip, padded_decimal};

verus! {

/// The digit at each place, counted from the right, is that of the number.
pub proof fn lemma_decimal_places(n: nat, i: nat)
    requires
        i < decimal(n).len(),
    ensures
        decimal(n)[decimal(n).len() - 1 - i] as int == '0' as int + (n as int / ten_to(i)) % 10,
    decreases n,
{
    if i > 0 {
        lemma_decimal_places(n / 10, (i - 1) as nat);
        let rest = decimal(n / 10);
        assert(decimal(n)[decimal(n).len() - 1 - i] == rest[rest.len() - 1 - (i - 1)]);
        let below = ten_to((i - 1) as nat);
        lemma_ten_to_positive((i - 1) as nat);
        assert((n as int / 10) / below == n as int / (10 * below)) by (nonlinear_arith)
            requires
                below > 0,
        ;
    }
}

/// Ten to a power.
pub open spec fn ten_to(i: nat) -> int
    decreases i,
{
    if i == 0 {
        1
    } else {
        10 * ten_to((i - 1) as nat)
    }
}

proof fn lemma_ten_to_positive(i: nat)
    ensures
        ten_to(i) > 0,
    decreases i,
{
    if i > 0 {
        lemma_ten_to_positive((i - 1) as nat);
    }
}

/// The value of digits is that of those in front, moved by as many places as
/// follow, and that of those that follow.
pub proof fn lemma_digits_together(left: Seq<char>, right: Seq<char>)
    ensures
        digits_value(left + right) == digits_value(left) * ten_to(right.len()) + digits_value(right),
    decreases right.len(),
{
    let whole = left + right;
    if right.len() == 0 {
        assert(whole =~= left);
        assert(digits_value(left) * 1 == digits_value(left));
    } else {
        lemma_digits_together(left, right.drop_last());
        assert(whole.drop_last() =~= left + right.drop_last());
        assert(whole.last() == right.last());
        let power = ten_to((right.len() - 1) as nat);
        let value = digits_value(left) as int;
        assert((value * power) * 10 == value * (10 * power)) by (nonlinear_arith);
    }
}

/// A single digit is worth what it says.
pub proof fn lemma_single_digit(d: int)
    requires
        0 <= d <= 9,
    ensures
        digits_value(seq![('0' as int + d) as char]) == d,
        decimal(d as nat) == seq![('0' as int + d) as char],
{
    let c = ('0' as int + d) as char;
    assert(seq![c].drop_last() =~= Seq::empty());
    assert(digits_value(Seq::<char>::empty()) == 0);
    assert(digits_value(seq![c]) == digits_value(seq![c].drop_last()) * 10 + (c as u32 - 48));
}

proof fn lemma_zeros(count: nat)
    ensures
        digits_value(Seq::new(count, |i: int| '0')) == 0,
        all_digits(Seq::new(count, |i: int| '0')),
    decreases count,
{
    let zeros = Seq::new(count, |i: int| '0');
    if count > 0 {
        lemma_zeros((count - 1) as nat);
        assert(zeros.drop_last() =~= Seq::new((count - 1) as nat, |i: int| '0'));
    }
}

/// Zeros in front do not change a number, and make it as wide as asked.
pub proof fn lemma_padded(n: nat, width: nat)
    ensures
        all_digits(padded_decimal(n, width)),
        digits_value(padded_decimal(n, width)) == n,
        padded_decimal(n, width).len() == if decimal(n).len() < width {
            width
        } else {
            decimal(n).len()
        },
{
    lemma_decimal_round_trip(n);
    let digits = decimal(n);
    if digits.len() < width {
        let count = (width - digits.len()) as nat;
        let zeros = Seq::new(count, |i: int| '0');
        lemma_zeros(count);
        lemma_digits_together(zeros, digits);
        lemma_ten_to_positive(digits.len());
        assert(0 * ten_to(digits.len()) == 0);
        assert forall|i: int| 0 <= i < padded_decimal(n, width).len() implies '0'
            <= #[trigger] padded_decimal(n, width)[i] <= '9' by {
            if i < count {
                assert(zeros[i] == '0');
            } else {
                assert(padded_decimal(n, width)[i] == digits[i - count]);
            }
        }
    }
}

/// How many digits a number has.
pub proof fn lemma_digits_below(n: nat, i: nat)
    requires
        i > 0,
        n < ten_to(i),
    ensures
        decimal(n).len() <= i,
    decreases i,
{
    if n >= 10 {
        if i == 1 {
            assert(ten_to(0) == 1);
        }
        lemma_digits_below(n / 10, (i - 1) as nat);
    }
}

} // verus!
