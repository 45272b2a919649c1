//! Decimal numbers as JSON writes them, read exactly at a resolution of one
//! millionth and rounded to whole units.

use crate::text::{chars_of, push_char};
use vstd::arithmetic::div_mod::{
    lemma_basic_div, lemma_div_denominator, lemma_fundamental_div_mod,
    lemma_fundamental_div_mod_converse,
};
use vstd::prelude::*;

verus! {

/// The largest magnitude, in millionths, that a number read here may have:
/// 2^31 units.
pub const MICRO_LIMIT: i64 = 2_147_483_648_000_000;

/// Whether `c` is one of `0` to `9`.
pub open spec fn is_digit(c: char) -> bool {
    48 <= c as u32 <= 57
}

/// The value of a digit character.
pub open spec fn digit_value(c: char) -> nat {
    (c as u32 - 48) as nat
}

/// Whether every character is a digit.
pub open spec fn all_digits(s: Seq<char>) -> bool {
    forall|i: int| 0 <= i < s.len() ==> is_digit(#[trigger] s[i])
}

/// The end of the run of digits that starts at `i`.
pub open spec fn digits_end(s: Seq<char>, i: int) -> int
    decreases s.len() - i,
{
    if 0 <= i < s.len() && is_digit(s[i]) {
        digits_end(s, i + 1)
    } else {
        i
    }
}

/// The number that a string of digits writes.
pub open spec fn digits_value(s: Seq<char>) -> nat
    decreases s.len(),
{
    if s.len() == 0 {
        0
    } else {
        digits_value(s.drop_last()) * 10 + digit_value(s.last())
    }
}

/// Ten to the power `n`.
pub open spec fn pow10(n: nat) -> nat
    decreases n,
{
    if n == 0 {
        1
    } else {
        10 * pow10((n - 1) as nat)
    }
}

/// A decimal number taken apart: its sign, its digits before and after the
/// point written as one run, and how many of them stand after the point once
/// the exponent is applied. The number is `digits * 10^(-scale)`.
pub struct NumberParts {
    pub negative: bool,
    pub digits: Seq<char>,
    pub scale: int,
}

/// Where the parts of a number written as
/// `-?digits(.digits)?([eE][+-]?digits)?` begin and end in its text.
pub struct Layout {
    /// Where the digits before the point begin: behind the sign, if any.
    pub start: int,
    /// Where the digits before the point end.
    pub point: int,
    /// Where the digits after the point end (`point` where there is no point).
    pub frac_end: int,
    /// Where the digits of the exponent begin (`frac_end` where there is none).
    pub exp_start: int,
    /// Where the digits of the exponent end (`frac_end` where there is none).
    pub end: int,
    pub has_point: bool,
    pub has_exp: bool,
    pub exp_negative: bool,
}

/// The layout that a text has if it is read as a number from its first
/// character on.
pub open spec fn layout_of(s: Seq<char>) -> Layout {
    let start: int = if s.len() > 0 && s[0] == '-' {
        1
    } else {
        0
    };
    let point = digits_end(s, start);
    let has_point = point < s.len() && s[point] == '.';
    let frac_end = if has_point {
        digits_end(s, point + 1)
    } else {
        point
    };
    let has_exp = frac_end < s.len() && (s[frac_end] == 'e' || s[frac_end] == 'E');
    let has_sign = has_exp && frac_end + 1 < s.len() && (s[frac_end + 1] == '+' || s[frac_end + 1]
        == '-');
    let exp_start = if has_sign {
        frac_end + 2
    } else if has_exp {
        frac_end + 1
    } else {
        frac_end
    };
    let end = if has_exp {
        digits_end(s, exp_start)
    } else {
        frac_end
    };
    Layout {
        start,
        point,
        frac_end,
        exp_start,
        end,
        has_point,
        has_exp,
        exp_negative: has_sign && s[frac_end + 1] == '-',
    }
}

/// Whether the text is a number: digits before the point, digits after a
/// point, digits in an exponent, and nothing behind them.
pub open spec fn is_number(s: Seq<char>) -> bool {
    let l = layout_of(s);
    &&& l.point > l.start
    &&& l.has_point ==> l.frac_end > l.point + 1
    &&& l.has_exp ==> l.end > l.exp_start
    &&& l.end == s.len()
}

/// The digits after the point.
pub open spec fn fraction_of(s: Seq<char>) -> Seq<char> {
    let l = layout_of(s);
    if l.has_point {
        s.subrange(l.point + 1, l.frac_end)
    } else {
        Seq::empty()
    }
}

/// The parts of a number, or `None` where the text is no number.
pub open spec fn number_parts(s: Seq<char>) -> Option<NumberParts> {
    let l = layout_of(s);
    if is_number(s) {
        let exponent = digits_value(s.subrange(l.exp_start, l.end)) as int;
        Some(
            NumberParts {
                negative: l.start == 1,
                digits: s.subrange(l.start, l.point) + fraction_of(s),
                scale: if l.exp_negative {
                    fraction_of(s).len() + exponent
                } else {
                    fraction_of(s).len() - exponent
                },
            },
        )
    } else {
        None
    }
}

/// The magnitude of `digits * 10^(-scale)` in units of `10^(-places)`, what
/// is beyond that many decimal places cut off.
pub open spec fn magnitude_at(digits: Seq<char>, scale: int, places: int) -> nat {
    if scale <= places {
        digits_value(digits) * pow10((places - scale) as nat)
    } else {
        digits_value(digits) / pow10((scale - places) as nat)
    }
}

/// Whether `digits * 10^(-scale)` has a digit other than zero beyond the
/// decimal place `places`: whether cutting it there loses anything.
pub open spec fn loses_at(digits: Seq<char>, scale: int, places: int) -> bool {
    scale > places && digits_value(digits) % pow10((scale - places) as nat) != 0
}

/// The magnitude of `digits * 10^(-scale)` in millionths, what is beyond the
/// sixth decimal place cut off.
pub open spec fn magnitude_micro(digits: Seq<char>, scale: int) -> nat {
    magnitude_at(digits, scale, 6)
}

/// The value of a decimal number in millionths, cut off toward zero, or `None`
/// where the text is not a number.
pub open spec fn micro_value(s: Seq<char>) -> Option<int> {
    match number_parts(s) {
        Some(p) => Some(
            if p.negative {
                -(magnitude_micro(p.digits, p.scale) as int)
            } else {
                magnitude_micro(p.digits, p.scale) as int
            },
        ),
        None => None,
    }
}

/// The value of a decimal number in millionths where its magnitude is at most
/// `MICRO_LIMIT`; `None` for a larger number and for text that is no number.
pub open spec fn bounded_micro(s: Seq<char>) -> Option<int> {
    match micro_value(s) {
        Some(m) => if -MICRO_LIMIT <= m <= MICRO_LIMIT {
            Some(m)
        } else {
            None
        },
        None => None,
    }
}

/// A number of millionths rounded to whole units, halves away from zero.
pub open spec fn rounded(micro: int) -> int {
    if micro >= 0 {
        (micro + 500_000) / 1_000_000
    } else {
        -((-micro + 500_000) / 1_000_000)
    }
}

/// A longer run of digits writes no smaller number than its beginning.
pub proof fn lemma_prefix_value_le(s: Seq<char>, len: int)
    requires
        0 <= len <= s.len(),
    ensures
        digits_value(s.take(len)) <= digits_value(s),
    decreases s.len() - len,
{
    if len == s.len() {
        assert(s.take(len) =~= s);
    } else {
        lemma_prefix_value_le(s.drop_last(), len);
        assert(s.drop_last().take(len) =~= s.take(len));
    }
}

/// One more digit: the value of the first `len + 1` digits.
pub proof fn lemma_prefix_value_step(s: Seq<char>, len: int)
    requires
        0 <= len < s.len(),
    ensures
        digits_value(s.take(len + 1)) == digits_value(s.take(len)) * 10 + digit_value(s[len]),
{
    assert(s.take(len + 1).drop_last() =~= s.take(len));
    assert(s.take(len + 1).last() == s[len]);
}

/// A run of `n` digits writes a number below `10^n`.
pub proof fn lemma_digits_value_bound(s: Seq<char>)
    requires
        all_digits(s),
    ensures
        digits_value(s) < pow10(s.len()),
    decreases s.len(),
{
    if s.len() > 0 {
        lemma_digits_value_bound(s.drop_last());
        assert(is_digit(s[s.len() - 1]));
    }
}

/// Powers of ten grow with the exponent.
pub proof fn lemma_pow10_monotonic(a: nat, b: nat)
    requires
        a <= b,
    ensures
        1 <= pow10(a) <= pow10(b),
    decreases b,
{
    if a < b {
        lemma_pow10_monotonic(a, (b - 1) as nat);
    } else if b > 0 {
        lemma_pow10_monotonic((a - 1) as nat, (b - 1) as nat);
    }
}

/// Dropping the last `k` digits divides by `10^k`.
pub proof fn lemma_drop_digits(s: Seq<char>, k: nat)
    requires
        all_digits(s),
        k <= s.len(),
    ensures
        digits_value(s) / pow10(k) == digits_value(s.take(s.len() - k)),
    decreases k,
{
    if k == 0 {
        assert(s.take(s.len() as int) =~= s);
        assert(pow10(0) == 1);
    } else {
        let t = s.drop_last();
        let p = pow10((k - 1) as nat);
        assert(is_digit(s[s.len() - 1]));
        assert(digits_value(s) / 10 == digits_value(t));
        assert(all_digits(t)) by {
            assert forall|i: int| 0 <= i < t.len() implies is_digit(#[trigger] t[i]) by {
                assert(t[i] == s[i]);
            }
        }
        lemma_drop_digits(t, (k - 1) as nat);
        assert(t.take(t.len() - (k - 1)) =~= s.take(s.len() - k));
        lemma_pow10_monotonic(0, (k - 1) as nat);
        lemma_div_denominator(digits_value(s) as int, 10, p as int);
        assert(pow10(k) == 10 * p);
        assert(digits_value(s) / pow10(k) == (digits_value(s) / 10) / p);
    }
}

/// A run of digits writes a multiple of `10^k` exactly where the last `k`
/// of them, or all where there are fewer, are zeros.
pub proof fn lemma_tail_zero(s: Seq<char>, k: nat)
    requires
        all_digits(s),
    ensures
        (digits_value(s) % pow10(k) == 0) <==> (forall|i: int|
            0 <= i < s.len() && i >= s.len() - k ==> digit_value(#[trigger] s[i]) == 0),
    decreases k,
{
    lemma_pow10_monotonic(0, k);
    if k == 0 {
        assert(pow10(0) == 1);
    } else if s.len() == 0 {
        assert(digits_value(s) == 0);
        lemma_basic_div(0, pow10(k) as int);
        lemma_fundamental_div_mod(0, pow10(k) as int);
    } else {
        let t = s.drop_last();
        let d = digit_value(s.last()) as int;
        let v = digits_value(t) as int;
        let p = pow10((k - 1) as nat) as int;
        lemma_pow10_monotonic(0, (k - 1) as nat);
        assert(is_digit(s[s.len() - 1]));
        assert(all_digits(t)) by {
            assert forall|i: int| 0 <= i < t.len() implies is_digit(#[trigger] t[i]) by {
                assert(t[i] == s[i]);
            }
        }
        lemma_tail_zero(t, (k - 1) as nat);
        let tail_zero = forall|i: int|
            0 <= i < t.len() && i >= t.len() - (k - 1) ==> digit_value(#[trigger] t[i]) == 0;
        let all_zero = forall|i: int|
            0 <= i < s.len() && i >= s.len() - k ==> digit_value(#[trigger] s[i]) == 0;
        assert(all_zero <==> (tail_zero && d == 0)) by {
            if all_zero {
                assert(digit_value(s[s.len() - 1]) == 0);
                assert forall|i: int| 0 <= i < t.len() && i >= t.len() - (k - 1) implies digit_value(
                    #[trigger] t[i],
                ) == 0 by {
                    assert(t[i] == s[i]);
                }
            }
            if tail_zero && d == 0 {
                assert forall|i: int| 0 <= i < s.len() && i >= s.len() - k implies digit_value(
                    #[trigger] s[i],
                ) == 0 by {
                    if i < t.len() {
                        assert(t[i] == s[i]);
                    }
                }
            }
        }
        let x = 10 * v + d;
        let m = 10 * p;
        assert(pow10(k) == m);
        assert(digits_value(s) == x);
        if x % m == 0 {
            let q = x / m;
            lemma_fundamental_div_mod(x, m);
            assert(d == 10 * (p * q - v)) by (nonlinear_arith)
                requires
                    10 * v + d == (10 * p) * q + 0,
            ;
            assert(d == 0);
            assert(v == p * q + 0) by (nonlinear_arith)
                requires
                    10 * v == (10 * p) * q,
            ;
            lemma_fundamental_div_mod_converse(v, p, q, 0);
        }
        if v % p == 0 && d == 0 {
            let q = v / p;
            lemma_fundamental_div_mod(v, p);
            assert(x == q * m + 0) by (nonlinear_arith)
                requires
                    v == p * q + 0,
                    x == 10 * v,
                    m == 10 * p,
            ;
            lemma_fundamental_div_mod_converse(x, m, q, 0);
        }
    }
}

/// Whether `c` is one of `0` to `9`.
fn is_digit_char(c: char) -> (r: bool)
    ensures
        r == is_digit(c),
{
    48 <= c as u32 && c as u32 <= 57
}

/// The value of the digit `c`.
fn digit_of(c: char) -> (d: i64)
    requires
        is_digit(c),
    ensures
        d == digit_value(c),
{
    (c as u32 - 48) as i64
}

/// The end of the run of digits that starts at `from`.
fn scan_digits(v: &Vec<char>, from: usize) -> (to: usize)
    requires
        from <= v.len(),
    ensures
        to == digits_end(v@, from as int),
        from <= to <= v.len(),
        all_digits(v@.subrange(from as int, to as int)),
{
    let mut i: usize = from;
    while i < v.len() && is_digit_char(v[i])
        invariant
            from <= i <= v.len(),
            digits_end(v@, from as int) == digits_end(v@, i as int),
            forall|k: int| from <= k < i ==> is_digit(#[trigger] v@[k]),
        decreases v.len() - i,
    {
        i += 1;
    }
    i
}

/// The number that the first `len` digits of `m` write, or `None` where it is
/// above `limit`.
fn prefix_value(m: &Vec<char>, len: usize, limit: i128) -> (r: Option<i128>)
    requires
        len <= m.len(),
        all_digits(m@),
        0 <= limit < 10_000_000_000_000_000_000_000_000_000_000_000_000,
    ensures
        match r {
            Some(x) => x == digits_value(m@.take(len as int)) && 0 <= x <= limit,
            None => digits_value(m@.take(len as int)) > limit,
        },
{
    let mut acc: i128 = 0;
    let mut i: usize = 0;
    assert(m@.take(0) =~= Seq::<char>::empty());
    while i < len
        invariant
            i <= len <= m.len(),
            all_digits(m@),
            0 <= limit < 10_000_000_000_000_000_000_000_000_000_000_000_000,
            0 <= acc <= limit,
            acc == digits_value(m@.take(i as int)),
        decreases len - i,
    {
        proof {
            lemma_prefix_value_step(m@, i as int);
            lemma_prefix_value_le(m@.take(len as int), i as int + 1);
            assert(m@.take(len as int).take(i as int + 1) =~= m@.take(i as int + 1));
        }
        acc = acc * 10 + digit_of(m[i]) as i128;
        if acc > limit {
            return None;
        }
        i += 1;
    }
    Some(acc)
}

/// `x * 10^k`, or `None` where that is above `limit`.
fn scale_up(x: i128, k: u128, limit: i128) -> (r: Option<i128>)
    requires
        0 <= x <= limit < 10_000_000_000_000_000_000_000_000_000_000_000_000,
    ensures
        match r {
            Some(y) => y == x * pow10(k as nat) && 0 <= y <= limit,
            None => x * pow10(k as nat) > limit,
        },
{
    if x == 0 {
        assert(0 * pow10(k as nat) == 0);
        return Some(0);
    }
    let mut y: i128 = x;
    let mut j: u128 = 0;
    assert(x * pow10(0) == x) by {
        assert(pow10(0) == 1);
    }
    while j < k
        invariant
            j <= k,
            1 <= x <= y <= limit < 10_000_000_000_000_000_000_000_000_000_000_000_000,
            y == x * pow10(j as nat),
        decreases k - j,
    {
        proof {
            lemma_pow10_monotonic((j + 1) as nat, k as nat);
            assert(x * pow10((j + 1) as nat) == 10 * (x * pow10(j as nat))) by (nonlinear_arith)
                requires
                    pow10((j + 1) as nat) == 10 * pow10(j as nat),
            ;
            assert(x * pow10((j + 1) as nat) <= x * pow10(k as nat)) by (nonlinear_arith)
                requires
                    pow10((j + 1) as nat) <= pow10(k as nat),
                    x >= 1,
            ;
        }
        y = y * 10;
        if y > limit {
            return None;
        }
        j += 1;
    }
    Some(y)
}

/// The number that the digits `v[from..to]` write, or `None` where it is above
/// 2^70.
fn read_exponent(v: &Vec<char>, from: usize, to: usize) -> (r: Option<u128>)
    requires
        from <= to <= v.len(),
        all_digits(v@.subrange(from as int, to as int)),
    ensures
        match r {
            Some(e) => e == digits_value(v@.subrange(from as int, to as int)) && e
                <= 0x400_0000_0000_0000_0000,
            None => digits_value(v@.subrange(from as int, to as int)) > 0x400_0000_0000_0000_0000,
        },
{
    let ghost d = v@.subrange(from as int, to as int);
    let mut acc: u128 = 0;
    let mut i: usize = from;
    assert(d.take(0) =~= Seq::<char>::empty());
    while i < to
        invariant
            from <= i <= to <= v.len(),
            d == v@.subrange(from as int, to as int),
            all_digits(d),
            acc <= 0x400_0000_0000_0000_0000,
            acc == digits_value(d.take(i - from)),
        decreases to - i,
    {
        proof {
            lemma_prefix_value_step(d, i - from);
            lemma_prefix_value_le(d, i - from + 1);
            assert(is_digit(d[i - from]));
        }
        acc = acc * 10 + (v[i] as u32 - 48) as u128;
        if acc > 0x400_0000_0000_0000_0000 {
            return None;
        }
        i += 1;
    }
    assert(d.take(to - from) =~= d);
    Some(acc)
}

/// Where the parts of a number begin and end in a vector of characters.
struct Scan {
    start: usize,
    point: usize,
    frac_end: usize,
    exp_start: usize,
    end: usize,
    has_point: bool,
    exp_negative: bool,
}

/// Finds the parts of a number, or `None` where the text is no number.
fn scan_number(v: &Vec<char>) -> (r: Option<Scan>)
    ensures
        r is Some == is_number(v@),
        match r {
            Some(l) => {
                &&& l.start == layout_of(v@).start
                &&& l.point == layout_of(v@).point
                &&& l.frac_end == layout_of(v@).frac_end
                &&& l.exp_start == layout_of(v@).exp_start
                &&& l.end == layout_of(v@).end
                &&& l.has_point == layout_of(v@).has_point
                &&& l.exp_negative == layout_of(v@).exp_negative
                &&& l.start < l.point <= l.frac_end <= l.exp_start <= l.end == v.len()
                &&& l.has_point ==> l.point + 1 < l.frac_end
                &&& !l.has_point ==> l.point == l.frac_end
                &&& all_digits(v@.subrange(l.start as int, l.point as int))
                &&& all_digits(fraction_of(v@))
                &&& all_digits(v@.subrange(l.exp_start as int, l.end as int))
            },
            None => true,
        },
{
    let n = v.len();
    let start: usize = if n > 0 && v[0] == '-' {
        1
    } else {
        0
    };
    let point = scan_digits(v, start);
    if point == start {
        return None;
    }
    let has_point = point < n && v[point] == '.';
    let frac_end = if has_point {
        scan_digits(v, point + 1)
    } else {
        point
    };
    if has_point && frac_end == point + 1 {
        return None;
    }
    let has_exp = frac_end < n && (v[frac_end] == 'e' || v[frac_end] == 'E');
    let has_sign = has_exp && frac_end + 1 < n && (v[frac_end + 1] == '+' || v[frac_end + 1]
        == '-');
    let exp_start: usize = if has_sign {
        frac_end + 2
    } else if has_exp {
        frac_end + 1
    } else {
        frac_end
    };
    let end = if has_exp {
        scan_digits(v, exp_start)
    } else {
        frac_end
    };
    if (has_exp && end == exp_start) || end != n {
        return None;
    }
    if !has_exp {
        assert(v@.subrange(exp_start as int, end as int) =~= Seq::<char>::empty());
    }
    Some(
        Scan {
            start,
            point,
            frac_end,
            exp_start,
            end,
            has_point,
            exp_negative: has_sign && v[frac_end + 1] == '-',
        },
    )
}

/// The digits before and after the point, as one run.
fn mantissa(v: &Vec<char>, l: &Scan) -> (m: Vec<char>)
    requires
        l.start <= l.point <= l.frac_end <= v.len(),
        l.has_point ==> l.point + 1 <= l.frac_end,
        l.has_point == layout_of(v@).has_point,
        l.point == layout_of(v@).point,
        l.frac_end == layout_of(v@).frac_end,
    ensures
        m@ == v@.subrange(l.start as int, l.point as int) + fraction_of(v@),
{
    let mut m: Vec<char> = Vec::new();
    let mut i: usize = l.start;
    while i < l.point
        invariant
            l.start <= i <= l.point <= v.len(),
            m@ == v@.subrange(l.start as int, i as int),
        decreases l.point - i,
    {
        m.push(v[i]);
        assert(v@.subrange(l.start as int, i + 1) =~= v@.subrange(l.start as int, i as int).push(
            v@[i as int],
        ));
        i += 1;
    }
    if l.has_point {
        let mut j: usize = l.point + 1;
        assert(v@.subrange(l.point + 1, l.point + 1) =~= Seq::<char>::empty());
        assert(m@ =~= v@.subrange(l.start as int, l.point as int) + v@.subrange(
            l.point + 1,
            j as int,
        ));
        while j < l.frac_end
            invariant
                l.point < j <= l.frac_end <= v.len(),
                m@ == v@.subrange(l.start as int, l.point as int) + v@.subrange(
                    l.point + 1,
                    j as int,
                ),
            decreases l.frac_end - j,
        {
            m.push(v[j]);
            assert(v@.subrange(l.point + 1, j + 1) =~= v@.subrange(l.point + 1, j as int).push(
                v@[j as int],
            ));
            assert(m@ =~= v@.subrange(l.start as int, l.point as int) + v@.subrange(
                l.point + 1,
                j + 1,
            ));
            j += 1;
        }
    } else {
        assert(m@ =~= v@.subrange(l.start as int, l.point as int) + Seq::<char>::empty());
    }
    m
}

/// `digits * 10^(-scale)` in units of `10^(-places)` where the exponent is
/// too large to hold: zero below one unit, nothing above the limit.
fn magnitude_far(
    m: &Vec<char>,
    exp_negative: bool,
    places: i128,
    limit: i128,
    Ghost(scale): Ghost<int>,
) -> (r: Option<i128>)
    requires
        all_digits(m@),
        m.len() >= 1,
        0 <= limit < 10_000_000_000_000_000_000_000_000_000_000_000_000,
        exp_negative ==> scale - places >= m.len(),
        !exp_negative ==> places - scale >= 37,
    ensures
        match r {
            Some(x) => x == magnitude_at(m@, scale, places as int) && 0 <= x <= limit,
            None => magnitude_at(m@, scale, places as int) > limit,
        },
{
    let len = m.len();
    proof {
        lemma_digits_value_bound(m@);
        assert(m@.take(len as int) =~= m@);
    }
    if exp_negative {
        proof {
            lemma_pow10_monotonic(len as nat, (scale - places) as nat);
            lemma_basic_div(digits_value(m@) as int, pow10((scale - places) as nat) as int);
        }
        Some(0)
    } else {
        let whole = prefix_value(m, len, limit);
        proof {
            lemma_pow10_monotonic(37, (places - scale) as nat);
            assert(pow10(37) == 10_000_000_000_000_000_000_000_000_000_000_000_000) by {
                reveal_with_fuel(pow10, 38);
            }
            let big = pow10((places - scale) as nat);
            let value = digits_value(m@);
            assert(value >= 1 ==> value * big > limit) by (nonlinear_arith)
                requires
                    big >= 10_000_000_000_000_000_000_000_000_000_000_000_000,
                    limit < 10_000_000_000_000_000_000_000_000_000_000_000_000,
            ;
            assert(value == 0 ==> value * big == 0);
        }
        match whole {
            Some(x) => if x == 0 {
                Some(0)
            } else {
                None
            },
            None => None,
        }
    }
}

/// `digits * 10^(-scale)` in units of `10^(-places)`, or `None` where that
/// is above `limit`.
fn magnitude_near(m: &Vec<char>, scale: i128, places: i128, limit: i128) -> (r: Option<i128>)
    requires
        all_digits(m@),
        0 <= places <= 27,
        0 <= limit < 10_000_000_000_000_000_000_000_000_000_000_000_000,
        -0x800_0000_0000_0000_0000 <= scale <= 0x800_0000_0000_0000_0000,
    ensures
        match r {
            Some(x) => x == magnitude_at(m@, scale as int, places as int) && 0 <= x <= limit,
            None => magnitude_at(m@, scale as int, places as int) > limit,
        },
{
    let len = m.len();
    proof {
        lemma_digits_value_bound(m@);
        assert(m@.take(len as int) =~= m@);
    }
    if scale <= places {
        match prefix_value(m, len, limit) {
            Some(x) => scale_up(x, (places - scale) as u128, limit),
            None => {
                proof {
                    lemma_pow10_monotonic(0, (places - scale) as nat);
                    let big = pow10((places - scale) as nat);
                    let value = digits_value(m@);
                    assert(value * big >= value) by (nonlinear_arith)
                        requires
                            big >= 1,
                    ;
                }
                None
            },
        }
    } else {
        let drop: u128 = (scale - places) as u128;
        if drop >= len as u128 {
            proof {
                lemma_pow10_monotonic(len as nat, drop as nat);
                lemma_basic_div(digits_value(m@) as int, pow10(drop as nat) as int);
            }
            Some(0)
        } else {
            proof {
                lemma_drop_digits(m@, drop as nat);
            }
            prefix_value(m, len - drop as usize, limit)
        }
    }
}

/// Whether the digits from `from` on, the last `drop` of them, hold one that
/// is not zero.
fn tail_nonzero(m: &Vec<char>, from: usize, Ghost(drop): Ghost<nat>) -> (r: bool)
    requires
        all_digits(m@),
        from <= m.len(),
        from == if drop >= m.len() {
            0
        } else {
            m.len() - drop
        },
    ensures
        r == (digits_value(m@) % pow10(drop) != 0),
{
    let mut i: usize = from;
    while i < m.len()
        invariant
            from <= i <= m.len(),
            all_digits(m@),
            from == if drop >= m.len() {
                0
            } else {
                m.len() - drop
            },
            forall|j: int| from <= j < i ==> digit_value(#[trigger] m@[j]) == 0,
        decreases m.len() - i,
    {
        if digit_of(m[i]) != 0 {
            proof {
                lemma_tail_zero(m@, drop);
                assert(digit_value(m@[i as int]) != 0);
            }
            return true;
        }
        i += 1;
    }
    proof {
        lemma_tail_zero(m@, drop);
    }
    false
}

/// A number as it is read at a number of decimal places: its magnitude in
/// units of that place, whether it is negative, and whether it is written
/// with a digit other than zero beyond that place.
pub struct Reading {
    pub magnitude: i128,
    pub negative: bool,
    pub cut: bool,
}

/// What reading a text at `places` decimal places gives, for a magnitude of
/// at most `limit` units: `None` for a larger number and for text that is no
/// number.
pub open spec fn reading_of(s: Seq<char>, places: int, limit: int) -> Option<Reading> {
    match number_parts(s) {
        Some(p) => if magnitude_at(p.digits, p.scale, places) <= limit {
            Some(
                Reading {
                    magnitude: magnitude_at(p.digits, p.scale, places) as i128,
                    negative: p.negative,
                    cut: loses_at(p.digits, p.scale, places),
                },
            )
        } else {
            None
        },
        None => None,
    }
}

/// Reads a decimal number at `places` decimal places, what is beyond them cut
/// off. `Some` exactly for a number whose magnitude is at most `limit` units.
pub fn read_at(s: &str, places: i128, limit: i128) -> (r: Option<Reading>)
    requires
        0 <= places <= 27,
        0 <= limit < 10_000_000_000_000_000_000_000_000_000_000_000_000,
    ensures
        r == reading_of(s@, places as int, limit as int),
{
    let v = chars_of(s);
    let l = match scan_number(&v) {
        Some(l) => l,
        None => {
            return None;
        },
    };
    let m = mantissa(&v, &l);
    let frac_len: usize = if l.has_point {
        l.frac_end - l.point - 1
    } else {
        0
    };
    let ghost parts = number_parts(s@).unwrap();
    assert(parts.digits == m@);
    assert(frac_len == fraction_of(s@).len());
    assert(all_digits(m@)) by {
        let a = v@.subrange(l.start as int, l.point as int);
        assert forall|k: int| 0 <= k < m@.len() implies is_digit(#[trigger] m@[k]) by {
            if k < a.len() {
                assert(m@[k] == a[k]);
            } else {
                assert(m@[k] == fraction_of(v@)[k - a.len()]);
            }
        }
    }
    let (magnitude, cut) = match read_exponent(&v, l.exp_start, l.end) {
        None => (
            magnitude_far(&m, l.exp_negative, places, limit, Ghost(parts.scale)),
            l.exp_negative && tail_nonzero(&m, 0, Ghost((parts.scale - places) as nat)),
        ),
        Some(exponent) => {
            let scale: i128 = if l.exp_negative {
                frac_len as i128 + exponent as i128
            } else {
                frac_len as i128 - exponent as i128
            };
            let cut = if scale > places {
                let drop: u128 = (scale - places) as u128;
                let from: usize = if drop >= m.len() as u128 {
                    0
                } else {
                    m.len() - drop as usize
                };
                tail_nonzero(&m, from, Ghost(drop as nat))
            } else {
                false
            };
            (magnitude_near(&m, scale, places, limit), cut)
        },
    };
    match magnitude {
        Some(x) => Some(Reading { magnitude: x, negative: l.start == 1, cut }),
        None => None,
    }
}

/// Reads a decimal number in millionths. `Some` exactly for a number whose
/// magnitude is at most `MICRO_LIMIT` millionths.
pub fn read_micro(s: &str) -> (r: Option<i64>)
    ensures
        match r {
            Some(x) => bounded_micro(s@) == Some(x as int),
            None => bounded_micro(s@) is None,
        },
{
    match read_at(s, 6, MICRO_LIMIT as i128) {
        Some(reading) => if reading.negative {
            Some(-(reading.magnitude as i64))
        } else {
            Some(reading.magnitude as i64)
        },
        None => None,
    }
}

/// Rounds a number of millionths to whole units, halves away from zero.
pub fn round_micro(micro: i64) -> (r: i64)
    requires
        -2 * MICRO_LIMIT <= micro <= 2 * MICRO_LIMIT,
    ensures
        r == rounded(micro as int),
{
    if micro >= 0 {
        (micro + 500_000) / 1_000_000
    } else {
        -((-micro + 500_000) / 1_000_000)
    }
}

/// The character of a digit.
pub open spec fn digit_char(d: nat) -> char {
    ((48 + d) as u8) as char
}

/// A natural number written in decimal digits.
pub open spec fn digits_of(n: nat) -> Seq<char>
    decreases n,
{
    if n < 10 {
        seq![digit_char(n)]
    } else {
        digits_of(n / 10).push(digit_char(n % 10))
    }
}

/// An integer written in decimal digits, a minus sign before a negative one.
pub open spec fn decimal(n: int) -> Seq<char> {
    if n < 0 {
        seq!['-'] + digits_of((-n) as nat)
    } else {
        digits_of(n as nat)
    }
}

/// Writes a natural number in decimal digits.
pub fn nat_to_string(n: u128) -> (r: String)
    ensures
        r@ == digits_of(n as nat),
{
    let mut rest: u128 = n;
    let ghost magnitude = rest as nat;
    // the digits from the last to the first
    let mut reversed: Vec<char> = Vec::new();
    while rest >= 10
        invariant
            digits_of(magnitude) == digits_of(rest as nat) + reversed@.reverse(),
        decreases rest,
    {
        let digit = ((48 + rest % 10) as u8) as char;
        let ghost before = reversed@;
        reversed.push(digit);
        proof {
            assert(digits_of(rest as nat) == digits_of((rest / 10) as nat).push(digit));
            assert(reversed@.reverse() =~= seq![digit] + before.reverse());
            assert(digits_of(rest as nat) + before.reverse() =~= digits_of((rest / 10) as nat)
                + reversed@.reverse());
        }
        rest = rest / 10;
    }
    reversed.push(((48 + rest) as u8) as char);
    let ghost last = reversed@;
    assert(digits_of(magnitude) =~= last.reverse()) by {
        let first = seq![digit_char(rest as nat)];
        assert(last.reverse() =~= first + last.drop_last().reverse());
    }
    let mut r = String::new();
    let mut i: usize = reversed.len();
    assert(r@ =~= last.reverse().take(0));
    while i > 0
        invariant
            i <= reversed.len(),
            reversed@ == last,
            r@ == last.reverse().take(last.len() - i),
        decreases i,
    {
        i -= 1;
        push_char(&mut r, reversed[i]);
        assert(last.reverse().take(last.len() - i) =~= last.reverse().take(last.len() - i - 1).push(
            last[i as int],
        ));
    }
    assert(last.reverse().take(last.len() as int) =~= last.reverse());
    r
}

/// Writes an integer in decimal digits.
pub fn int_to_string(n: i128) -> (r: String)
    ensures
        r@ == decimal(n as int),
{
    if n < 0 {
        let mut r = String::new();
        push_char(&mut r, '-');
        r.append(nat_to_string((-(n + 1)) as u128 + 1).as_str());
        assert(r@ =~= seq!['-'] + digits_of((-n) as nat));
        r
    } else {
        nat_to_string(n as u128)
    }
}

} // verus!
