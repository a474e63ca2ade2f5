//! Verified text primitives: decimal digit runs, bounded unsigned-integer
//! parsing, separator splitting and joining, and fixed-point decimal
//! parsing. These are the building blocks of the value decoder and the
//! topic parser.
//!
//! The numeric wire grammar is deliberately fixed and exactly what the spec
//! functions here state: unsigned integers are bare digit runs (no sign, no
//! exponent), and decimals are an optional `-`, digits, and an optional
//! fraction with digits on both sides of the dot. Forms such as `+5`,
//! `.5`, `3.`, `1e3` or `inf` are rejected.

use vstd::prelude::*;

verus! {

/// A decimal digit character.
pub open spec fn is_digit(c: char) -> bool {
    48 <= c as int <= 57
}

/// The numeric value of a decimal digit character.
pub open spec fn digit_val(c: char) -> int {
    c as int - 48
}

/// Every character of the sequence is a decimal digit.
pub open spec fn is_digits(s: Seq<char>) -> bool {
    forall|i: int| 0 <= i < s.len() ==> is_digit(#[trigger] s[i])
}

/// The base-10 value of a digit run (most significant digit first).
pub open spec fn digits_val(s: Seq<char>) -> int
    decreases s.len(),
{
    if s.len() == 0 {
        0
    } else {
        digits_val(s.drop_last()) * 10 + digit_val(s.last())
    }
}

/// A non-empty digit run whose value does not exceed `max`: exactly the
/// strings accepted by the bounded unsigned parser.
pub open spec fn valid_uint(s: Seq<char>, max: int) -> bool {
    s.len() > 0 && is_digits(s) && digits_val(s) <= max
}

pub proof fn lemma_digits_val_nonneg(s: Seq<char>)
    requires
        is_digits(s),
    ensures
        digits_val(s) >= 0,
    decreases s.len(),
{
    if s.len() > 0 {
        lemma_digits_val_nonneg(s.drop_last());
    }
}

/// Extending a digit run to the right never decreases its value.
pub proof fn lemma_digits_val_prefix_le(s: Seq<char>, i: int)
    requires
        is_digits(s),
        0 <= i <= s.len(),
    ensures
        digits_val(s.take(i)) <= digits_val(s),
    decreases s.len() - i,
{
    if i < s.len() {
        lemma_digits_val_prefix_le(s, i + 1);
        assert(s.take(i + 1).drop_last() =~= s.take(i));
        assert(is_digits(s.take(i)));
        lemma_digits_val_nonneg(s.take(i));
    } else {
        assert(s.take(i) =~= s);
    }
}

/// Parses a non-empty run of decimal digits whose value is at most `max`;
/// `None` exactly when the string is empty, holds a non-digit, or exceeds
/// `max`.
pub fn parse_uint(s: &str, max: u64) -> (r: Option<u64>)
    ensures
        match r {
            Some(v) => valid_uint(s@, max as int) && v == digits_val(s@),
            None => !valid_uint(s@, max as int),
        },
{
    let n = s.unicode_len();
    if n == 0 {
        return None;
    }
    let mut acc: u128 = 0;
    let mut i: usize = 0;
    while i < n
        invariant
            n == s@.len(),
            0 < n,
            i <= n,
            is_digits(s@.take(i as int)),
            acc == digits_val(s@.take(i as int)),
            acc <= max,
        decreases n - i,
    {
        let c = s.get_char(i);
        let cu = c as u32;
        if cu < 48 || cu > 57 {
            assert(!is_digit(s@[i as int]));
            return None;
        }
        let d = (cu - 48) as u128;
        proof {
            assert(s@.take(i + 1).drop_last() =~= s@.take(i as int));
            assert(s@.take(i + 1).last() == s@[i as int]);
        }
        acc = acc * 10 + d;
        i = i + 1;
        if acc > max as u128 {
            proof {
                if is_digits(s@) {
                    lemma_digits_val_prefix_le(s@, i as int);
                }
            }
            return None;
        }
    }
    proof {
        assert(s@.take(n as int) =~= s@);
    }
    Some(acc as u64)
}

/// `parse_uint` narrowed to `u8`.
pub fn parse_u8(s: &str) -> (r: Option<u8>)
    ensures
        match r {
            Some(v) => valid_uint(s@, 255) && v == digits_val(s@),
            None => !valid_uint(s@, 255),
        },
{
    match parse_uint(s, 255) {
        Some(v) => Some(v as u8),
        None => None,
    }
}

/// `parse_uint` narrowed to `u16`.
pub fn parse_u16(s: &str) -> (r: Option<u16>)
    ensures
        match r {
            Some(v) => valid_uint(s@, 65535) && v == digits_val(s@),
            None => !valid_uint(s@, 65535),
        },
{
    match parse_uint(s, 65535) {
        Some(v) => Some(v as u16),
        None => None,
    }
}

/// `parse_uint` narrowed to `u32`.
pub fn parse_u32(s: &str) -> (r: Option<u32>)
    ensures
        match r {
            Some(v) => valid_uint(s@, u32::MAX as int) && v == digits_val(s@),
            None => !valid_uint(s@, u32::MAX as int),
        },
{
    match parse_uint(s, 4294967295) {
        Some(v) => Some(v as u32),
        None => None,
    }
}

/// The segments of `s` between occurrences of `sep`: always at least one
/// segment, with empty segments for leading, trailing or doubled separators.
pub open spec fn split_char(s: Seq<char>, sep: char) -> Seq<Seq<char>>
    decreases s.len(),
{
    if s.len() == 0 {
        seq![Seq::empty()]
    } else if s.last() == sep {
        split_char(s.drop_last(), sep).push(Seq::empty())
    } else {
        let rest = split_char(s.drop_last(), sep);
        rest.update(rest.len() - 1, rest.last().push(s.last()))
    }
}

pub proof fn lemma_split_char_len(s: Seq<char>, sep: char)
    ensures
        split_char(s, sep).len() >= 1,
    decreases s.len(),
{
    if s.len() > 0 {
        lemma_split_char_len(s.drop_last(), sep);
    }
}

/// Splits a string on a separator character; the result's views are exactly
/// `split_char` of the string's view.
pub fn split_str(s: &str, sep: char) -> (r: Vec<String>)
    ensures
        r.deep_view() == split_char(s@, sep),
        r@.len() >= 1,
{
    let n = s.unicode_len();
    let mut r: Vec<String> = Vec::new();
    r.push(String::new());
    proof {
        assert(r.deep_view() =~= split_char(s@.take(0), sep));
    }
    let mut i: usize = 0;
    while i < n
        invariant
            n == s@.len(),
            i <= n,
            r@.len() >= 1,
            r.deep_view() == split_char(s@.take(i as int), sep),
        decreases n - i,
    {
        let ghost prev = r.deep_view();
        let c = s.get_char(i);
        if c == sep {
            r.push(String::new());
            proof {
                assert(r.deep_view() =~~= prev.push(Seq::empty()));
            }
        } else {
            let piece = s.substring_char(i, i + 1);
            let mut last = r.pop().unwrap();
            last.append(piece);
            r.push(last);
            proof {
                assert(s@.subrange(i as int, i + 1) =~= seq![s@[i as int]]);
                assert(r.deep_view() =~~= prev.update(
                    prev.len() - 1,
                    prev.last().push(s@[i as int]),
                ));
            }
        }
        proof {
            assert(s@.take(i + 1).drop_last() =~= s@.take(i as int));
            assert(s@.take(i + 1).last() == s@[i as int]);
        }
        i = i + 1;
    }
    proof {
        assert(s@.take(n as int) =~= s@);
    }
    r
}

/// The `/`-joined path of the given segments: the inverse of `split_char`
/// on `'/'`. Empty exactly when there are no segments, or one empty segment.
pub open spec fn join_path(parts: Seq<Seq<char>>) -> Seq<char>
    decreases parts.len(),
{
    if parts.len() == 0 {
        Seq::empty()
    } else if parts.len() == 1 {
        parts[0]
    } else {
        join_path(parts.drop_last()) + seq!['/'] + parts.last()
    }
}

/// Joins segments back into a `/`-delimited path.
pub fn join_segments(parts: &Vec<String>) -> (r: String)
    ensures
        r@ == join_path(parts.deep_view()),
{
    let mut r = String::new();
    let mut i: usize = 0;
    while i < parts.len()
        invariant
            i <= parts@.len(),
            r@ == join_path(parts.deep_view().take(i as int)),
        decreases parts@.len() - i,
    {
        if i > 0 {
            r.append("/");
        }
        r.append(parts[i].as_str());
        proof {
            reveal_strlit("/");
            assert("/"@ =~= seq!['/']);
            let dv = parts.deep_view();
            assert(dv.take(i + 1).drop_last() =~= dv.take(i as int));
            assert(dv.take(i + 1).last() == dv[i as int]);
            assert(dv[i as int] == parts@[i as int]@);
            assert(r@ =~= join_path(dv.take(i + 1)));
        }
        i = i + 1;
    }
    proof {
        assert(parts.deep_view().take(parts@.len() as int) =~= parts.deep_view());
    }
    r
}

/// 10 to the `n`-th power.
pub open spec fn pow10(n: nat) -> int
    decreases n,
{
    if n == 0 {
        1
    } else {
        10 * pow10((n - 1) as nat)
    }
}

/// The value of a fractional digit run in thousandths: the first three
/// digits, padded with zeros on the right when fewer are given.
pub open spec fn frac_thousandths(s: Seq<char>) -> int {
    if s.len() >= 3 {
        digits_val(s.take(3))
    } else {
        digits_val(s) * pow10((3 - s.len()) as nat)
    }
}

/// The value, in thousandths, of an unsigned decimal string: digits with an
/// optional `.` and at least one fractional digit. `None` when the string is
/// not of that shape.
pub open spec fn unsigned_thousandths(s: Seq<char>) -> Option<int> {
    let parts = split_char(s, '.');
    if parts.len() == 1 && parts[0].len() > 0 && is_digits(parts[0]) {
        Some(digits_val(parts[0]) * 1000)
    } else if parts.len() == 2 && parts[0].len() > 0 && is_digits(parts[0]) && parts[1].len() > 0
        && is_digits(parts[1]) {
        Some(digits_val(parts[0]) * 1000 + frac_thousandths(parts[1]))
    } else {
        None
    }
}

/// The value, in thousandths, of a decimal string with an optional leading
/// minus sign.
pub open spec fn decimal_thousandths(s: Seq<char>) -> Option<int> {
    if s.len() > 0 && s[0] == '-' {
        match unsigned_thousandths(s.skip(1)) {
            Some(m) => Some(-m),
            None => None,
        }
    } else {
        unsigned_thousandths(s)
    }
}

/// The decimal strings the fixed-point parser accepts: well-shaped, with a
/// magnitude that fits the signed 64-bit thousandths scale.
pub open spec fn decimal_fits(s: Seq<char>) -> bool {
    match decimal_thousandths(s) {
        Some(m) => -(i64::MAX as int) <= m <= i64::MAX as int,
        None => false,
    }
}

proof fn lemma_pow10_pos(n: nat)
    ensures
        pow10(n) >= 1,
    decreases n,
{
    if n > 0 {
        lemma_pow10_pos((n - 1) as nat);
    }
}

proof fn lemma_frac_thousandths_nonneg(s: Seq<char>)
    requires
        is_digits(s),
    ensures
        frac_thousandths(s) >= 0,
{
    if s.len() >= 3 {
        assert(is_digits(s.take(3)));
        lemma_digits_val_nonneg(s.take(3));
    } else {
        lemma_digits_val_nonneg(s);
        lemma_pow10_pos((3 - s.len()) as nat);
        assert(digits_val(s) * pow10((3 - s.len()) as nat) >= 0) by (nonlinear_arith)
            requires
                digits_val(s) >= 0,
                pow10((3 - s.len()) as nat) >= 1,
        ;
    }
}

proof fn lemma_unsigned_bound_split(parts: Seq<Seq<char>>, over: int)
    requires
        parts.len() >= 1,
        is_digits(parts[0]),
        digits_val(parts[0]) > over,
        over >= 0,
    ensures
        digits_val(parts[0]) * 1000 > over * 1000 + 999,
{
    assert(digits_val(parts[0]) * 1000 >= (over + 1) * 1000) by (nonlinear_arith)
        requires
            digits_val(parts[0]) >= over + 1,
    ;
    assert((over + 1) * 1000 == over * 1000 + 1000) by (nonlinear_arith);
}

/// Parses an unsigned decimal string into thousandths; `None` exactly when
/// the shape is wrong or the value exceeds `i64::MAX` thousandths.
fn parse_unsigned_thousandths(s: &str) -> (r: Option<u64>)
    ensures
        match r {
            Some(v) => unsigned_thousandths(s@) == Some(v as int) && v <= i64::MAX as u64,
            None => match unsigned_thousandths(s@) {
                Some(m) => m > i64::MAX as int,
                None => true,
            },
        },
{
    let parts = split_str(s, '.');
    let ghost sparts = split_char(s@, '.');
    proof {
        assert(parts@.len() == sparts.len());
        assert(forall|k: int| 0 <= k < sparts.len() ==> #[trigger] parts@[k]@ == sparts[k]);
    }
    if parts.len() == 1 {
        let whole = match parse_uint(parts[0].as_str(), 9223372036854775) {
            Some(v) => v,
            None => {
                proof {
                    if is_digits(sparts[0]) && sparts[0].len() > 0 && digits_val(sparts[0])
                        > 9223372036854775 {
                        lemma_unsigned_bound_split(sparts, 9223372036854775);
                    }
                }
                return None;
            },
        };
        Some(whole * 1000)
    } else if parts.len() == 2 {
        let whole = match parse_uint(parts[0].as_str(), 9223372036854775) {
            Some(v) => v,
            None => {
                proof {
                    if is_digits(sparts[0]) && sparts[0].len() > 0 && digits_val(sparts[0])
                        > 9223372036854775 {
                        lemma_unsigned_bound_split(sparts, 9223372036854775);
                        if is_digits(sparts[1]) {
                            lemma_frac_thousandths_nonneg(sparts[1]);
                        }
                    }
                }
                return None;
            },
        };
        let frac = parts[1].as_str();
        proof {
            assert(frac@ == sparts[1]);
        }
        let fl = frac.unicode_len();
        if fl == 0 {
            return None;
        }
        let mut j: usize = 0;
        while j < fl
            invariant
                fl == frac@.len(),
                j <= fl,
                is_digits(frac@.take(j as int)),
                sparts == split_char(s@, '.'),
                sparts.len() == 2,
                frac@ == sparts[1],
            decreases fl - j,
        {
            let cu = frac.get_char(j) as u32;
            if cu < 48 || cu > 57 {
                assert(!is_digit(frac@[j as int]));
                return None;
            }
            proof {
                assert(frac@.take(j + 1).drop_last() =~= frac@.take(j as int));
            }
            j = j + 1;
        }
        proof {
            assert(frac@.take(fl as int) =~= frac@);
        }
        let d0 = (frac.get_char(0) as u32 - 48) as u64;
        let d1: u64 = if fl >= 2 {
            (frac.get_char(1) as u32 - 48) as u64
        } else {
            0
        };
        let d2: u64 = if fl >= 3 {
            (frac.get_char(2) as u32 - 48) as u64
        } else {
            0
        };
        let fm = d0 * 100 + d1 * 10 + d2;
        proof {
            let f = frac@;
            assert(digits_val(f.take(0)) == 0);
            assert(f.take(1).drop_last() =~= f.take(0));
            assert(f.take(1).last() == f[0]);
            assert(digits_val(f.take(1)) == digit_val(f[0]));
            if f.len() >= 2 {
                assert(f.take(2).drop_last() =~= f.take(1));
                assert(f.take(2).last() == f[1]);
                assert(digits_val(f.take(2)) == digit_val(f[0]) * 10 + digit_val(f[1]));
            }
            if f.len() >= 3 {
                assert(f.take(3).drop_last() =~= f.take(2));
                assert(f.take(3).last() == f[2]);
                assert(digits_val(f.take(3)) == (digit_val(f[0]) * 10 + digit_val(f[1])) * 10
                    + digit_val(f[2]));
            }
            assert(pow10(0) == 1);
            assert(pow10(1) == 10);
            assert(pow10(2) == 100);
            if f.len() == 1 {
                assert(f.take(1) =~= f);
            }
            if f.len() == 2 {
                assert(f.take(2) =~= f);
            }
            assert(fm == frac_thousandths(f));
        }
        let total = whole * 1000 + fm;
        if total > 9223372036854775807u64 {
            return None;
        }
        Some(total)
    } else {
        proof {
            lemma_split_char_len(s@, '.');
        }
        None
    }
}

/// Parses a decimal string (optional minus sign, digits, optional fraction)
/// into signed thousandths; `None` exactly when the string is not of that
/// shape or its magnitude exceeds `i64::MAX` thousandths.
pub fn parse_decimal_thousandths(s: &str) -> (r: Option<i64>)
    ensures
        match r {
            Some(v) => decimal_thousandths(s@) == Some(v as int),
            None => !decimal_fits(s@),
        },
        r is Some <==> decimal_fits(s@),
{
    let n = s.unicode_len();
    if n > 0 && s.get_char(0) == '-' {
        let rest = s.substring_char(1, n);
        proof {
            assert(rest@ =~= s@.skip(1));
        }
        match parse_unsigned_thousandths(rest) {
            Some(v) => Some(-(v as i64)),
            None => None,
        }
    } else {
        match parse_unsigned_thousandths(s) {
            Some(v) => Some(v as i64),
            None => None,
        }
    }
}

} // verus!
