//! Number helpers.
use vstd::prelude::*;
use vstd::arithmetic::div_mod::{lemma_add_mod_noop, lemma_sub_mod_noop};

verus! {

/// True when `d` is a positive divisor of `n`.
pub open spec fn divides(d: int, n: int) -> bool {
    d > 0 && n % d == 0
}

/// A common divisor of `a - b` and `b` divides `a`, and a common divisor of
/// `a` and `b` divides `a - b`.
proof fn lemma_common_divisor_of_difference(a: int, b: int, d: int)
    requires
        d > 0,
    ensures
        (a % d == 0 && b % d == 0) <==> ((a - b) % d == 0 && b % d == 0),
{
    lemma_sub_mod_noop(a, b, d);
    lemma_add_mod_noop(a - b, b, d);
    vstd::arithmetic::div_mod::lemma_small_mod(0, d as nat);
}

/// The greatest common divisor, by repeated subtraction.
///
/// Both numbers must be positive, or equal to each other (then the result is
/// that number): with a zero and a positive number the subtraction never
/// ends.
pub fn greatest_common_divisor(left: u64, right: u64) -> (r: u64)
    requires
        (left > 0 && right > 0) || left == right,
    ensures
        left == right ==> r == left,
        left > 0 && right > 0 ==> {
            &&& divides(r as int, left as int)
            &&& divides(r as int, right as int)
            &&& forall|d: int|
                divides(d, left as int) && divides(d, right as int) ==> #[trigger] divides(
                    d,
                    r as int,
                )
        },
    decreases left + right, if left < right { 1int } else { 0int },
{
    if left < right {
        greatest_common_divisor(right, left)
    } else if left == right {
        left
    } else {
        let r = greatest_common_divisor(left - right, right);
        proof {
            assert forall|d: int|
                divides(d, left as int) && divides(d, right as int) implies #[trigger] divides(
                    d,
                    r as int,
                ) by {
                lemma_common_divisor_of_difference(left as int, right as int, d);
            }
            assert(divides(r as int, left as int)) by {
                lemma_common_divisor_of_difference(left as int, right as int, r as int);
            }
        }
        r
    }
}

} // verus!
