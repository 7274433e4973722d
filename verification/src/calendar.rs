use vstd::prelude::*;

use crate::fixp::SCALE;

verus! {

/// Weekday index of a day number, with day 1 being a Monday and the
/// index counting 0 = Monday .. 6 = Sunday.  Day numbers count days of
/// the proleptic Gregorian calendar, day 1 being the first day of year 1
/// (which is a Monday), as the external date library reports them.
pub open spec fn weekday_of(day: int) -> int {
    (day + 6) % 7
}

/// Value of component k (0 <= k < 5) of the one-hot weekday encoding:
/// SCALE on the matching weekday component for Monday..Friday, 0
/// elsewhere.  Saturday and Sunday map to the all-zero vector.
pub open spec fn one_hot_val(day: int, k: int) -> i64 {
    if weekday_of(day) == k {
        SCALE
    } else {
        0
    }
}

/// The full 5-element one-hot weekday encoding of a day number.
pub open spec fn one_hot_seq(day: int) -> Seq<i64> {
    Seq::new(5, |k: int| one_hot_val(day, k))
}

/// Encodes a calendar day as its 5-element one-hot weekday vector.
/// Weekend days contribute no weekday signal: their encoding is all
/// zeros.
pub fn one_hot(day: u64) -> (r: Vec<i64>)
    ensures
        r@ == one_hot_seq(day as int),
        r@.len() == 5,
{
    let wd: u64 = ((day % 7) + 6) % 7;
    proof {
        vstd::arithmetic::div_mod::lemma_add_mod_noop(day as int, 6int, 7int);
        assert(6int % 7int == 6);
        assert(wd == weekday_of(day as int));
    }
    let mut r: Vec<i64> = Vec::new();
    let mut k: usize = 0;
    while k < 5
        invariant
            k <= 5,
            r@.len() == k,
            wd == weekday_of(day as int),
            forall|i: int| 0 <= i < k ==> r@[i] == one_hot_val(day as int, i),
        decreases 5 - k,
    {
        if wd == k as u64 {
            r.push(SCALE);
        } else {
            r.push(0);
        }
        k = k + 1;
    }
    proof {
        assert(r@ =~= one_hot_seq(day as int));
    }
    r
}

} // verus!
