//! Verified parsing of the textual shapes the service consumes: unsigned
//! decimal integers, decimal fractions (rate quotes), and the three date
//! layouts `YYYY-MM-DD`, `YYYYMMDD` and `DD.MM.YYYY`.
//!
//! All parsers work on raw bytes, so arbitrary (also non-UTF-8-boundary)
//! input is rejected rather than mis-read.

use vstd::prelude::*;
use crate::date::{Date, is_valid_ymd};
use crate::error::AppError;
use crate::rate::Rate;

verus! {

pub open spec fn is_digit(b: u8) -> bool {
    48 <= b <= 57
}

pub open spec fn all_digits(s: Seq<u8>, lo: int, hi: int) -> bool {
    forall|j: int| lo <= j < hi ==> is_digit(#[trigger] s[j])
}

/// Value of a digit string, most significant digit first.
pub open spec fn digits_val(s: Seq<u8>) -> int
    decreases s.len(),
{
    if s.len() == 0 {
        0
    } else {
        10 * digits_val(s.drop_last()) + (s.last() - 48)
    }
}

pub open spec fn pow10(k: nat) -> int
    decreases k,
{
    if k == 0 {
        1
    } else {
        10 * pow10((k - 1) as nat)
    }
}

pub proof fn lemma_pow10_pos(k: nat)
    ensures
        pow10(k) >= 1,
    decreases k,
{
    if k > 0 {
        lemma_pow10_pos((k - 1) as nat);
    }
}

pub proof fn lemma_pow10_mono(a: nat, b: nat)
    requires
        a <= b,
    ensures
        pow10(a) <= pow10(b),
    decreases b,
{
    if a < b {
        lemma_pow10_mono(a, (b - 1) as nat);
        lemma_pow10_pos((b - 1) as nat);
    }
}

pub proof fn lemma_pow10_add(a: nat, b: nat)
    ensures
        pow10(a + b) == pow10(a) * pow10(b),
    decreases b,
{
    if b == 0 {
        assert(pow10(a) * 1 == pow10(a)) by (nonlinear_arith);
    } else {
        lemma_pow10_add(a, (b - 1) as nat);
        assert(pow10(a + b) == 10 * (pow10(a) * pow10((b - 1) as nat)));
        assert(10 * (pow10(a) * pow10((b - 1) as nat)) == pow10(a) * (10 * pow10(
            (b - 1) as nat,
        ))) by (nonlinear_arith);
    }
}

pub proof fn lemma_digits_val_bound(s: Seq<u8>)
    requires
        all_digits(s, 0, s.len() as int),
    ensures
        0 <= digits_val(s) < pow10(s.len()),
    decreases s.len(),
{
    if s.len() > 0 {
        assert(all_digits(s.drop_last(), 0, s.len() - 1));
        lemma_digits_val_bound(s.drop_last());
        assert(is_digit(s.last()));
    }
}

pub proof fn lemma_digits_val_concat(a: Seq<u8>, b: Seq<u8>)
    ensures
        digits_val(a + b) == digits_val(a) * pow10(b.len()) + digits_val(b),
    decreases b.len(),
{
    if b.len() == 0 {
        assert(a + b =~= a);
        assert(digits_val(a) * 1 == digits_val(a)) by (nonlinear_arith);
    } else {
        lemma_digits_val_concat(a, b.drop_last());
        assert((a + b).drop_last() =~= a + b.drop_last());
        assert((a + b).last() == b.last());
        let p = pow10((b.len() - 1) as nat);
        assert(10 * (digits_val(a) * p + digits_val(b.drop_last())) + (b.last() - 48)
            == digits_val(a) * (10 * p) + (10 * digits_val(b.drop_last()) + (b.last() - 48)))
            by (nonlinear_arith);
    }
}

/// Ten to the `k`, as a runtime value.
pub fn pow10_u64(k: usize) -> (r: u64)
    requires
        k <= 18,
    ensures
        r as int == pow10(k as nat),
{
    let mut r: u64 = 1;
    let mut i: usize = 0;
    while i < k
        invariant
            i <= k,
            k <= 18,
            r as int == pow10(i as nat),
        decreases k - i,
    {
        proof {
            lemma_pow10_mono(i as nat, 17);
            assert(pow10(17) == 100000000000000000) by {
                reveal_with_fuel(pow10, 18);
            }
        }
        r = r * 10;
        i = i + 1;
    }
    r
}

/// Parses `s[lo..hi]` as an unsigned decimal integer.
pub fn parse_uint(s: &[u8], lo: usize, hi: usize) -> (r: Option<u64>)
    requires
        lo <= hi <= s@.len(),
        hi - lo <= 18,
    ensures
        r is Some <==> (hi > lo && all_digits(s@, lo as int, hi as int)),
        r matches Some(v) ==> v as int == digits_val(s@.subrange(lo as int, hi as int)),
{
    if lo >= hi {
        return None;
    }
    let mut acc: u64 = 0;
    let mut i: usize = lo;
    while i < hi
        invariant
            lo <= i <= hi <= s@.len(),
            hi - lo <= 18,
            all_digits(s@, lo as int, i as int),
            acc as int == digits_val(s@.subrange(lo as int, i as int)),
            (acc as int) < pow10((i - lo) as nat),
        decreases hi - i,
    {
        let b = s[i];
        if b < 48 || b > 57 {
            return None;
        }
        proof {
            lemma_pow10_mono((i - lo) as nat, 17);
            assert(pow10(17) == 100000000000000000) by {
                reveal_with_fuel(pow10, 18);
            }
            let prev = s@.subrange(lo as int, i as int);
            let next = s@.subrange(lo as int, i as int + 1);
            assert(next.drop_last() =~= prev);
            assert(next.last() == s@[i as int]);
        }
        acc = acc * 10 + (b - 48) as u64;
        i = i + 1;
    }
    Some(acc)
}

/// The byte sequence has at least one decimal point.
pub open spec fn has_dot(s: Seq<u8>) -> bool {
    exists|i: int| 0 <= i < s.len() && #[trigger] s[i] == 46
}

pub open spec fn dot_pos(s: Seq<u8>) -> int {
    choose|i: int| 0 <= i < s.len() && #[trigger] s[i] == 46
}

/// The shape of an unsigned decimal number: digits, optionally with a single
/// embedded decimal point flanked by digits on both sides.
pub open spec fn decimal_shape(s: Seq<u8>) -> bool {
    if has_dot(s) {
        let i = dot_pos(s);
        1 <= i && i + 1 < s.len() && all_digits(s, 0, i) && all_digits(s, i + 1, s.len() as int)
    } else {
        s.len() >= 1 && all_digits(s, 0, s.len() as int)
    }
}

/// The digits of the number with the decimal point removed.
pub open spec fn mantissa(s: Seq<u8>) -> Seq<u8> {
    if has_dot(s) {
        s.subrange(0, dot_pos(s)) + s.subrange(dot_pos(s) + 1, s.len() as int)
    } else {
        s
    }
}

/// Numerator denoted by the digit string.
pub open spec fn decimal_num(s: Seq<u8>) -> int {
    digits_val(mantissa(s))
}

/// Denominator denoted by the digit string: ten to the number of fractional digits.
pub open spec fn decimal_den(s: Seq<u8>) -> int {
    if has_dot(s) {
        pow10((s.len() - dot_pos(s) - 1) as nat)
    } else {
        1
    }
}

/// Combining an integer part and a fractional part recovers the digits of
/// the whole mantissa, which stays below ten to the digit count.
proof fn lemma_decimal_combine(a: Seq<u8>, b: Seq<u8>)
    requires
        all_digits(a, 0, a.len() as int),
        all_digits(b, 0, b.len() as int),
    ensures
        digits_val(a + b) == digits_val(a) * pow10(b.len()) + digits_val(b),
        0 <= digits_val(a + b) < pow10(a.len() + b.len()),
        0 <= digits_val(a) < pow10(a.len()),
        0 <= digits_val(b) < pow10(b.len()),
{
    lemma_digits_val_concat(a, b);
    lemma_digits_val_bound(a);
    lemma_digits_val_bound(b);
    assert(all_digits(a + b, 0, (a + b).len() as int)) by {
        assert(forall|j: int| 0 <= j < a.len() ==> (a + b)[j] == a[j]);
        assert(forall|j: int| a.len() <= j < (a + b).len() ==> (a + b)[j] == b[j - a.len()]);
    }
    lemma_digits_val_bound(a + b);
}

/// If the first decimal point sits at `d` and the string has the decimal
/// shape, then `d` is the point the shape speaks of.
proof fn lemma_first_dot_is_the_dot(s: Seq<u8>, d: int)
    requires
        0 <= d < s.len(),
        s[d] == 46,
        forall|j: int| 0 <= j < d ==> #[trigger] s[j] != 46,
        decimal_shape(s),
    ensures
        dot_pos(s) == d,
{
    let dp = dot_pos(s);
    assert(0 <= dp < s.len() && s[dp] == 46);
    if dp > d {
        assert(is_digit(s[d]));
    }
}

/// Parses the two digit runs around the decimal point found at `d`.
fn parse_with_dot(s: &[u8], d: usize) -> (r: Option<Rate>)
    requires
        d < s@.len(),
        s@[d as int] == 46,
        forall|j: int| 0 <= j < d ==> #[trigger] s@[j] != 46,
    ensures
        r is Some <==> decimal_shape(s@) && mantissa(s@).len() <= 18,
        r matches Some(rt) ==> {
            &&& rt.num as int == decimal_num(s@)
            &&& rt.den as int == decimal_den(s@)
            &&& rt.wf()
        },
{
    let n = s.len();
    proof {
        assert(has_dot(s@));
        if decimal_shape(s@) {
            lemma_first_dot_is_the_dot(s@, d as int);
            assert(mantissa(s@).len() == n - 1);
        }
    }
    if d < 1 || d + 1 >= n || n > 19 {
        return None;
    }
    let whole = parse_uint(s, 0, d);
    let frac = parse_uint(s, d + 1, n);
    match (whole, frac) {
        (Some(w), Some(f)) => {
            let flen = n - d - 1;
            let ghost a = s@.subrange(0, d as int);
            let ghost b = s@.subrange(d as int + 1, n as int);
            proof {
                // All bytes besides position d are digits, so d is the
                // point of the decimal shape, and the shape holds.
                assert(decimal_shape(s@)) by {
                    assert(has_dot(s@));
                    if dot_pos(s@) != d {
                        assert(is_digit(s@[d as int]));
                    }
                }
                lemma_first_dot_is_the_dot(s@, d as int);
                lemma_decimal_combine(a, b);
                lemma_pow10_mono((a.len() + b.len()) as nat, 18);
                assert(pow10(18) == 1000000000000000000) by {
                    reveal_with_fuel(pow10, 19);
                }
                lemma_pow10_pos(b.len() as nat);
                assert(w * pow10(b.len() as nat) <= w * pow10(b.len() as nat) + f);
            }
            let scale = pow10_u64(flen);
            let num = w * scale + f;
            Some(Rate { num, den: scale })
        },
        _ => {
            proof {
                if decimal_shape(s@) {
                    lemma_first_dot_is_the_dot(s@, d as int);
                }
            }
            None
        },
    }
}

/// Parses an unsigned decimal quote such as `1.0586` into the exact fraction
/// `10586 / 10000`. Accepts at most eighteen digits in all.
pub fn parse_decimal(s: &[u8]) -> (r: Option<Rate>)
    ensures
        r is Some <==> decimal_shape(s@) && mantissa(s@).len() <= 18,
        r matches Some(rt) ==> {
            &&& rt.num as int == decimal_num(s@)
            &&& rt.den as int == decimal_den(s@)
            &&& rt.wf()
        },
{
    let n = s.len();
    // Locate the first decimal point.
    let mut dot: Option<usize> = None;
    let mut i: usize = 0;
    while i < n
        invariant
            n == s@.len(),
            i <= n,
            dot is None ==> forall|j: int| 0 <= j < i ==> #[trigger] s@[j] != 46,
            dot matches Some(d) ==> d < i && s@[d as int] == 46
                && forall|j: int| 0 <= j < d ==> #[trigger] s@[j] != 46,
        decreases n - i,
    {
        if s[i] == 46 && dot.is_none() {
            dot = Some(i);
        }
        i = i + 1;
    }
    match dot {
        None => {
            proof {
                assert(!has_dot(s@));
            }
            if n > 18 {
                return None;
            }
            match parse_uint(s, 0, n) {
                Some(v) => {
                    proof {
                        assert(s@.subrange(0, n as int) =~= s@);
                    }
                    Some(Rate { num: v, den: 1 })
                },
                None => None,
            }
        },
        Some(d) => parse_with_dot(s, d),
    }
}

/// `YYYY-MM-DD`.
pub open spec fn iso_shape(s: Seq<u8>) -> bool {
    s.len() == 10 && s[4] == 45 && s[7] == 45 && all_digits(s, 0, 4) && all_digits(s, 5, 7)
        && all_digits(s, 8, 10)
}

pub open spec fn iso_year(s: Seq<u8>) -> int { digits_val(s.subrange(0, 4)) }

pub open spec fn iso_month(s: Seq<u8>) -> int { digits_val(s.subrange(5, 7)) }

pub open spec fn iso_day(s: Seq<u8>) -> int { digits_val(s.subrange(8, 10)) }

/// `YYYYMMDD`.
pub open spec fn compact_shape(s: Seq<u8>) -> bool {
    s.len() == 8 && all_digits(s, 0, 8)
}

pub open spec fn compact_year(s: Seq<u8>) -> int { digits_val(s.subrange(0, 4)) }

pub open spec fn compact_month(s: Seq<u8>) -> int { digits_val(s.subrange(4, 6)) }

pub open spec fn compact_day(s: Seq<u8>) -> int { digits_val(s.subrange(6, 8)) }

/// `DD.MM.YYYY`.
pub open spec fn dotted_shape(s: Seq<u8>) -> bool {
    s.len() == 10 && s[2] == 46 && s[5] == 46 && all_digits(s, 0, 2) && all_digits(s, 3, 5)
        && all_digits(s, 6, 10)
}

pub open spec fn dotted_year(s: Seq<u8>) -> int { digits_val(s.subrange(6, 10)) }

pub open spec fn dotted_month(s: Seq<u8>) -> int { digits_val(s.subrange(3, 5)) }

pub open spec fn dotted_day(s: Seq<u8>) -> int { digits_val(s.subrange(0, 2)) }

fn parse_component(s: &[u8], lo: usize, hi: usize) -> (r: Option<u32>)
    requires
        lo <= hi <= s@.len(),
        hi - lo <= 4,
    ensures
        r is Some <==> (hi > lo && all_digits(s@, lo as int, hi as int)),
        r matches Some(v) ==> v as int == digits_val(s@.subrange(lo as int, hi as int)),
{
    match parse_uint(s, lo, hi) {
        Some(v) => {
            proof {
                lemma_digits_val_bound(s@.subrange(lo as int, hi as int));
                lemma_pow10_mono((hi - lo) as nat, 4);
                assert(pow10(4) == 10000) by {
                    reveal_with_fuel(pow10, 5);
                }
            }
            Some(v as u32)
        },
        None => None,
    }
}

/// Parses a date written `YYYY-MM-DD`.
pub fn parse_iso_date(s: &[u8]) -> (r: Option<Date>)
    ensures
        r is Some <==> iso_shape(s@) && is_valid_ymd(iso_year(s@), iso_month(s@), iso_day(s@)),
        r matches Some(dt) ==> dt.wf() && dt.year as int == iso_year(s@)
            && dt.month as int == iso_month(s@) && dt.day as int == iso_day(s@),
{
    if s.len() != 10 || s[4] != 45 || s[7] != 45 {
        return None;
    }
    let y = parse_component(s, 0, 4);
    let m = parse_component(s, 5, 7);
    let d = parse_component(s, 8, 10);
    match (y, m, d) {
        (Some(y), Some(m), Some(d)) => Date::from_ymd(y, m, d),
        _ => None,
    }
}

/// Parses a date written `YYYYMMDD`.
pub fn parse_compact_date(s: &[u8]) -> (r: Option<Date>)
    ensures
        r is Some <==> compact_shape(s@) && is_valid_ymd(
            compact_year(s@),
            compact_month(s@),
            compact_day(s@),
        ),
        r matches Some(dt) ==> dt.wf() && dt.year as int == compact_year(s@)
            && dt.month as int == compact_month(s@) && dt.day as int == compact_day(s@),
{
    if s.len() != 8 {
        return None;
    }
    let y = parse_component(s, 0, 4);
    let m = parse_component(s, 4, 6);
    let d = parse_component(s, 6, 8);
    match (y, m, d) {
        (Some(y), Some(m), Some(d)) => Date::from_ymd(y, m, d),
        _ => None,
    }
}

/// Parses a date written `DD.MM.YYYY`.
pub fn parse_dotted_date(s: &[u8]) -> (r: Option<Date>)
    ensures
        r is Some <==> dotted_shape(s@) && is_valid_ymd(
            dotted_year(s@),
            dotted_month(s@),
            dotted_day(s@),
        ),
        r matches Some(dt) ==> dt.wf() && dt.year as int == dotted_year(s@)
            && dt.month as int == dotted_month(s@) && dt.day as int == dotted_day(s@),
{
    if s.len() != 10 || s[2] != 46 || s[5] != 46 {
        return None;
    }
    let d = parse_component(s, 0, 2);
    let m = parse_component(s, 3, 5);
    let y = parse_component(s, 6, 10);
    match (y, m, d) {
        (Some(y), Some(m), Some(d)) => Date::from_ymd(y, m, d),
        _ => None,
    }
}

/// Parses a date in either accepted request layout: `YYYY-MM-DD` first,
/// `YYYYMMDD` as the fallback. Either spelling of one calendar date parses
/// to the same value, since both pin the same components.
pub fn parse_date(s: &[u8]) -> (r: Option<Date>)
    ensures
        r is Some <==> (iso_shape(s@) && is_valid_ymd(iso_year(s@), iso_month(s@), iso_day(s@)))
            || (compact_shape(s@) && is_valid_ymd(
            compact_year(s@),
            compact_month(s@),
            compact_day(s@),
        )),
        r matches Some(dt) ==> dt.wf(),
        iso_shape(s@) && is_valid_ymd(iso_year(s@), iso_month(s@), iso_day(s@)) ==> (r matches
            Some(dt) && dt.year as int == iso_year(s@) && dt.month as int == iso_month(s@)
            && dt.day as int == iso_day(s@)),
        !(iso_shape(s@) && is_valid_ymd(iso_year(s@), iso_month(s@), iso_day(s@)))
            && compact_shape(s@) && is_valid_ymd(
            compact_year(s@),
            compact_month(s@),
            compact_day(s@),
        ) ==> (r matches Some(dt) && dt.year as int == compact_year(s@) && dt.month as int
            == compact_month(s@) && dt.day as int == compact_day(s@)),
{
    match parse_iso_date(s) {
        Some(d) => Some(d),
        None => parse_compact_date(s),
    }
}

/// Parses a request date parameter, rejecting anything in neither accepted
/// layout with the invalid-date failure class.
pub fn parse_date_param(s: &[u8]) -> (r: Result<Date, AppError>)
    ensures
        r is Ok <==> (iso_shape(s@) && is_valid_ymd(iso_year(s@), iso_month(s@), iso_day(s@)))
            || (compact_shape(s@) && is_valid_ymd(
            compact_year(s@),
            compact_month(s@),
            compact_day(s@),
        )),
        r matches Ok(dt) ==> dt.wf(),
        iso_shape(s@) && is_valid_ymd(iso_year(s@), iso_month(s@), iso_day(s@)) ==> (r matches Ok(
            dt,
        ) && dt.year as int == iso_year(s@) && dt.month as int == iso_month(s@) && dt.day as int
            == iso_day(s@)),
        !(iso_shape(s@) && is_valid_ymd(iso_year(s@), iso_month(s@), iso_day(s@)))
            && compact_shape(s@) && is_valid_ymd(
            compact_year(s@),
            compact_month(s@),
            compact_day(s@),
        ) ==> (r matches Ok(dt) && dt.year as int == compact_year(s@) && dt.month as int
            == compact_month(s@) && dt.day as int == compact_day(s@)),
        r matches Err(e) ==> e is InvalidDate,
{
    match parse_date(s) {
        Some(d) => Ok(d),
        None => Err(AppError::InvalidDate(String::from_str("unrecognized date layout"))),
    }
}

} // verus!
