//! Stateless numeric helpers: arithmetic-mean of an integer sequence,
//! most-recent-of-two optional timestamps, and the percent-to-analog scale.

use vstd::prelude::*;

verus! {

/// Sum of a sequence of fixed-point readings, as a mathematical integer.
pub open spec fn sum_seq(s: Seq<i64>) -> int
    decreases s.len(),
{
    if s.len() == 0 {
        0
    } else {
        sum_seq(s.drop_last()) + s.last()
    }
}

/// Integer division that truncates toward zero, as Rust's `/` does.
pub open spec fn trunc_div(a: int, b: int) -> int
    recommends
        b > 0,
{
    if a >= 0 {
        a / b
    } else {
        -((-a) / b)
    }
}

/// The arithmetic mean of a sequence, truncated toward zero; 0 for an empty
/// sequence.
pub open spec fn average_spec(s: Seq<i64>) -> int {
    if s.len() == 0 {
        0
    } else {
        trunc_div(sum_seq(s), s.len() as int)
    }
}

proof fn lemma_sum_seq_bounds(s: Seq<i64>)
    ensures
        s.len() * i64::MIN <= sum_seq(s) <= s.len() * i64::MAX,
    decreases s.len(),
{
    if s.len() == 0 {
    } else {
        lemma_sum_seq_bounds(s.drop_last());
        assert((s.len() - 1) * i64::MIN + i64::MIN == s.len() * i64::MIN) by (nonlinear_arith);
        assert((s.len() - 1) * i64::MAX + i64::MAX == s.len() * i64::MAX) by (nonlinear_arith);
    }
}

proof fn lemma_div_bound(mag: int, len: int, cap: int)
    requires
        0 < len,
        0 <= mag <= len * cap,
        0 <= cap,
    ensures
        0 <= mag / len <= cap,
{
    vstd::arithmetic::div_mod::lemma_div_is_ordered(mag, len * cap, len);
    vstd::arithmetic::div_mod::lemma_div_multiples_vanish(cap, len);
    vstd::arithmetic::div_mod::lemma_div_pos_is_pos(mag, len);
}

/// The arithmetic mean of the given readings, truncated toward zero.
/// An empty sequence averages to 0; callers that must distinguish "no data"
/// layer an `Option` on top (see `PinCollection::get_average_temperature`).
pub fn average(numbers: &Vec<i64>) -> (r: i64)
    ensures
        r as int == average_spec(numbers@),
{
    if numbers.len() == 0 {
        return 0i64;
    }
    let mut sum: i128 = 0;
    let mut i: usize = 0;
    while i < numbers.len()
        invariant
            0 < numbers@.len(),
            i <= numbers@.len(),
            sum == sum_seq(numbers@.take(i as int)),
            i * i64::MIN <= sum <= i * i64::MAX,
        decreases numbers@.len() - i,
    {
        proof {
            assert(numbers@.take(i + 1).drop_last() =~= numbers@.take(i as int));
            assert((i + 1) * i64::MIN == i * i64::MIN + i64::MIN) by (nonlinear_arith);
            assert((i + 1) * i64::MAX == i * i64::MAX + i64::MAX) by (nonlinear_arith);
        }
        sum = sum + numbers[i] as i128;
        i = i + 1;
    }
    proof {
        assert(numbers@.take(numbers@.len() as int) =~= numbers@);
    }
    let len = numbers.len();
    let neg = sum < 0;
    let mag: u128 = if neg {
        (-sum) as u128
    } else {
        sum as u128
    };
    let q: u128 = mag / (len as u128);
    proof {
        if neg {
            assert(mag == -sum_seq(numbers@));
            assert(len * (i64::MAX as int + 1) >= len * -(i64::MIN as int)) by (nonlinear_arith);
            lemma_div_bound(mag as int, len as int, i64::MAX as int + 1);
        } else {
            lemma_div_bound(mag as int, len as int, i64::MAX as int);
        }
    }
    let signed: i128 = if neg {
        -(q as i128)
    } else {
        q as i128
    };
    signed as i64
}

/// The more recent of two optional timestamps; `None` only when both are
/// `None`. On a tie the first argument is returned.
pub fn more_resent_date(dt1: Option<i64>, dt2: Option<i64>) -> (r: Option<i64>)
    ensures
        r == match (dt1, dt2) {
            (Some(d1), Some(d2)) => if d1 < d2 {
                dt2
            } else {
                dt1
            },
            (Some(_), None) => dt1,
            (None, _) => dt2,
        },
{
    if let Some(d1) = dt1 {
        if let Some(d2) = dt2 {
            if d1 < d2 {
                dt2
            } else {
                dt1
            }
        } else {
            dt1
        }
    } else {
        dt2
    }
}

/// What `percent_to_analog` returns: a linear 0..=100 -> 0..=1023 scale,
/// clamped at 100 percent.
pub open spec fn percent_to_analog_spec(num: u8) -> int {
    if num >= 100 {
        1023
    } else {
        num * 1023 / 100
    }
}

/// Scales a duty percentage to the device's 0..=1023 analog range, clamping
/// inputs above 100 percent.
pub fn percent_to_analog(num: u8) -> (r: u16)
    ensures
        r as int == percent_to_analog_spec(num),
{
    if num >= 100 {
        1023u16
    } else {
        (num as u32 * 1023u32 / 100) as u16
    }
}

} // verus!
