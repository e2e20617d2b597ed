//! The Luhn-10 check.

use vstd::prelude::*;
use crate::bytes::digit;

verus! {

/// What one digit adds to the Luhn sum. Every second digit, counted from the right, is
/// doubled, and a doubled digit above nine counts as nine less.
pub open spec fn luhn_term(b: u8, doubled: bool) -> int {
    let d = b - '0' as u8;
    if !doubled {
        d
    } else if 2 * d > 9 {
        2 * d - 9
    } else {
        2 * d
    }
}

/// The Luhn sum of a string of digits.
pub open spec fn luhn_sum(digits: Seq<u8>) -> int
    decreases digits.len(),
{
    if digits.len() == 0 {
        0
    } else {
        luhn_term(digits[0], digits.len() % 2 == 0) + luhn_sum(digits.drop_first())
    }
}

pub open spec fn luhn_valid(digits: Seq<u8>) -> bool {
    luhn_sum(digits) % 10 == 0
}

/// Whether the digits pass the Luhn-10 check.
pub fn luhn_ok(digits: &[u8]) -> (r: bool)
    requires
        forall|i: int| 0 <= i < digits@.len() ==> #[trigger] digits@[i] >= '0' as u8,
        luhn_sum(digits@) <= u32::MAX,
    ensures
        r == luhn_valid(digits@),
{
    let mut sum: u32 = 0;
    let n: usize = digits.len();
    let mut i: usize = 0;
    proof {
        assert(digits@.subrange(n as int, n as int) =~= Seq::<u8>::empty());
    }
    while i < n
        invariant
            i <= n == digits@.len(),
            forall|j: int| 0 <= j < n ==> #[trigger] digits@[j] >= '0' as u8,
            luhn_sum(digits@) <= u32::MAX,
            sum == luhn_sum(digits@.subrange(n - i, n as int)),
        decreases n - i,
    {
        let b: u8 = digits[n - 1 - i];
        let mut d: u32 = (b - '0' as u8) as u32;
        proof {
            let tail = digits@.subrange(n - i - 1, n as int);
            assert(tail.drop_first() =~= digits@.subrange(n - i, n as int));
            assert(luhn_sum(tail) == luhn_term(b, i % 2 == 1) + sum);
            lemma_tail_sum(digits@, n - i - 1);
        }
        if i % 2 == 1 {
            d = d * 2;
            if d > 9 {
                d = d - 9;
            }
        }
        sum = sum + d;
        i += 1;
    }
    proof {
        assert(digits@.subrange(0, n as int) =~= digits@);
    }
    sum % 10 == 0
}

/// The sum of a tail is no more than the whole sum, and both are no less than zero.
proof fn lemma_tail_sum(digits: Seq<u8>, from: int)
    requires
        0 <= from <= digits.len(),
        forall|i: int| 0 <= i < digits.len() ==> #[trigger] digits[i] >= '0' as u8,
    ensures
        0 <= luhn_sum(digits.subrange(from, digits.len() as int)) <= luhn_sum(digits),
    decreases digits.len(),
{
    if from == 0 {
        assert(digits.subrange(0, digits.len() as int) =~= digits);
        if digits.len() > 0 {
            lemma_tail_sum(digits.drop_first(), 0);
            assert(digits.drop_first().subrange(0, digits.len() - 1) =~= digits.drop_first());
        }
    } else {
        assert(digits.drop_first().subrange(from - 1, digits.len() - 1) =~= digits.subrange(
            from,
            digits.len() as int,
        ));
        lemma_tail_sum(digits.drop_first(), from - 1);
    }
}

/// A sum of decimal digits is at most nine for each of them.
pub proof fn lemma_sum_bound(digits: Seq<u8>)
    requires
        forall|i: int| 0 <= i < digits.len() ==> digit(#[trigger] digits[i]),
    ensures
        0 <= luhn_sum(digits) <= 9 * digits.len(),
    decreases digits.len(),
{
    if digits.len() > 0 {
        assert(digit(digits[0]));
        lemma_sum_bound(digits.drop_first());
    }
}

/// What changing one digit does to the sum.
proof fn lemma_sum_of_update(digits: Seq<u8>, i: int, b: u8)
    requires
        0 <= i < digits.len(),
    ensures
        luhn_sum(digits.update(i, b)) == luhn_sum(digits) - luhn_term(
            digits[i],
            (digits.len() - i) % 2 == 0,
        ) + luhn_term(b, (digits.len() - i) % 2 == 0),
    decreases digits.len(),
{
    if i == 0 {
        assert(digits.update(0, b).drop_first() =~= digits.drop_first());
    } else {
        assert(digits.update(i, b).drop_first() =~= digits.drop_first().update(i - 1, b));
        lemma_sum_of_update(digits.drop_first(), i - 1, b);
    }
}

/// The check notices one wrong digit, whichever it is.
pub proof fn law_wrong_digit_is_noticed(digits: Seq<u8>, i: int, b: u8)
    requires
        forall|k: int| 0 <= k < digits.len() ==> digit(#[trigger] digits[k]),
        luhn_valid(digits),
        0 <= i < digits.len(),
        digit(b),
        b != digits[i],
    ensures
        !luhn_valid(digits.update(i, b)),
{
    lemma_sum_of_update(digits, i, b);
    assert(digit(digits[i]));
}

/// The sum takes two digits at a time from the right: the last counts as it is, and of the one
/// before it the double counts with its own digits added up.
pub proof fn law_sum_takes_two_digits(digits: Seq<u8>, a: u8, b: u8)
    requires
        48 <= a <= 57,
        48 <= b <= 57,
    ensures
        luhn_sum(digits.push(a).push(b)) == luhn_sum(digits) + (2 * (a - 48)) / 10 + (2 * (a - 48))
            % 10 + (b - 48),
        luhn_sum(seq![b]) == b - 48,
        luhn_sum(Seq::<u8>::empty()) == 0,
    decreases digits.len(),
{
    let all = digits.push(a).push(b);
    assert(seq![b].drop_first() =~= Seq::<u8>::empty());
    assert(luhn_sum(Seq::<u8>::empty()) == 0);
    if digits.len() == 0 {
        assert(all.drop_first() =~= seq![b]);
        assert(luhn_sum(seq![b]) == luhn_term(b, false) + luhn_sum(seq![b].drop_first()));
        assert(luhn_sum(all) == luhn_term(a, true) + luhn_sum(all.drop_first()));
    } else {
        law_sum_takes_two_digits(digits.drop_first(), a, b);
        assert(all.drop_first() =~= digits.drop_first().push(a).push(b));
        assert(all[0] == digits[0]);
    }
}

/// The check asks for a sum that ends in zero.
pub proof fn law_valid_sums_end_in_zero(digits: Seq<u8>)
    ensures
        luhn_valid(digits) <==> exists|tens: int| luhn_sum(digits) == #[trigger] (10 * tens),
{
    if luhn_valid(digits) {
        assert(luhn_sum(digits) == 10 * (luhn_sum(digits) / 10));
    }
}

/// Every string of digits has one check digit, and only one, that makes it pass.
pub proof fn law_one_check_digit(digits: Seq<u8>) -> (check: u8)
    requires
        forall|k: int| 0 <= k < digits.len() ==> digit(#[trigger] digits[k]),
    ensures
        48 <= check <= 57,
        luhn_valid(digits.push(check)),
        forall|b: u8| 48 <= b <= 57 && #[trigger] luhn_valid(digits.push(b)) ==> b == check,
{
    let zero: u8 = 48;
    let base = digits.push(zero);
    let n = digits.len() as int;
    let d = (10 - luhn_sum(base) % 10) % 10;
    let check = (48 + d) as u8;
    assert forall|b: u8| 48 <= b <= 57 implies luhn_sum(#[trigger] digits.push(b)) == luhn_sum(base)
        + (b - 48) by {
        lemma_sum_of_update(base, n, b);
        assert(base.update(n, b) =~= digits.push(b));
    }
    assert(luhn_sum(digits.push(check)) == luhn_sum(base) + d);
    check
}

/// Two neighbours that are swapped are noticed, unless they are a zero and a nine.
pub proof fn law_swapped_neighbours_are_noticed(digits: Seq<u8>, i: int)
    requires
        forall|k: int| 0 <= k < digits.len() ==> digit(#[trigger] digits[k]),
        luhn_valid(digits),
        0 <= i < digits.len() - 1,
        digits[i] != digits[i + 1],
        !(digits[i] == 48 && digits[i + 1] == 57),
        !(digits[i] == 57 && digits[i + 1] == 48),
    ensures
        !luhn_valid(digits.update(i, digits[i + 1]).update(i + 1, digits[i])),
{
    let one = digits.update(i, digits[i + 1]);
    lemma_sum_of_update(digits, i, digits[i + 1]);
    lemma_sum_of_update(one, i + 1, digits[i]);
    assert(digit(digits[i]) && digit(digits[i + 1]));
}

/// Zeros in front change nothing.
pub proof fn law_leading_zeros_do_not_count(digits: Seq<u8>)
    ensures
        luhn_sum(seq![48u8] + digits) == luhn_sum(digits),
{
    assert((seq![48u8] + digits).drop_first() =~= digits);
}

} // verus!
