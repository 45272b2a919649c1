//! The sum of two decimal numbers, added as they are written and rounded
//! once to a whole number.

use crate::number::{
    digits_value, lemma_pow10_monotonic, loses_at, magnitude_at, number_parts, pow10, read_at,
    reading_of, NumberParts, Reading,
};
use vstd::arithmetic::div_mod::{
    lemma_div_is_ordered, lemma_div_multiples_vanish_quotient, lemma_fundamental_div_mod,
    lemma_fundamental_div_mod_converse_div, lemma_mod_bound,
};
use vstd::prelude::*;

verus! {

/// A number in units of `10^(-places)`, for a number that is written with no
/// more decimal places than that.
pub open spec fn exact_at(p: NumberParts, places: int) -> int {
    let magnitude = digits_value(p.digits) * pow10((places - p.scale) as nat);
    if p.negative {
        -magnitude
    } else {
        magnitude as int
    }
}

/// `n` units of `10^(-places)` rounded to a whole number, halves away from
/// zero.
pub open spec fn rounded_at(n: int, places: nat) -> int {
    if n >= 0 {
        (2 * n + pow10(places)) / (2 * pow10(places) as int)
    } else {
        -((-2 * n + pow10(places)) / (2 * pow10(places) as int))
    }
}

/// The least number of decimal places at which two numbers are both whole.
pub open spec fn common_places(p: NumberParts, q: NumberParts) -> nat {
    if p.scale >= q.scale && p.scale >= 0 {
        p.scale as nat
    } else if q.scale >= 0 {
        q.scale as nat
    } else {
        0
    }
}

/// The sum of two numbers rounded to a whole number, halves away from zero:
/// both numbers are taken with every digit that they are written with, and
/// only their sum is rounded.
pub open spec fn exact_sum(p: NumberParts, q: NumberParts) -> int {
    let places = common_places(p, q);
    rounded_at(exact_at(p, places as int) + exact_at(q, places as int), places)
}

/// How many decimal places a number is read at where it enters a sum.
pub const FINE_PLACES: i128 = 27;

/// The largest magnitude, in units of the last of those places, that a number
/// read for a sum may have: 2^31 whole units.
pub const FINE_LIMIT: i128 = 2_147_483_648_000_000_000_000_000_000_000_000_000;

/// The end below a number, given its reading, in units of the place that it
/// was read at: the number itself where nothing was cut off it, and else the
/// next unit below it.
pub open spec fn low_of(r: Reading) -> int {
    if !r.negative {
        r.magnitude as int
    } else if r.cut {
        -(r.magnitude + 1)
    } else {
        -(r.magnitude as int)
    }
}

/// The end above a number, given its reading: the number itself where
/// nothing was cut off it, and else the next unit above it.
pub open spec fn high_of(r: Reading) -> int {
    if r.negative {
        -(r.magnitude as int)
    } else if r.cut {
        r.magnitude + 1
    } else {
        r.magnitude as int
    }
}

/// A number of units of the twenty-seventh decimal place rounded to whole
/// units, halves away from zero.
pub open spec fn rounded_fine(n: int) -> int {
    if n >= 0 {
        (n + 500_000_000_000_000_000_000_000_000) / 1_000_000_000_000_000_000_000_000_000
    } else {
        -((-n + 500_000_000_000_000_000_000_000_000) / 1_000_000_000_000_000_000_000_000_000)
    }
}

/// Whether the readings of two numbers settle what their sum rounds to. They
/// do where at most one of the numbers has a digit other than zero beyond the
/// twenty-seventh decimal place: the sum then lies at a unit of that place or
/// strictly between two, and halves lie at units. Where both numbers have
/// such digits, the sum lies strictly between two ends that are two units
/// apart, and the readings settle it where both ends round alike.
pub open spec fn decided(x: Reading, y: Reading) -> bool {
    !(x.cut && y.cut) || rounded_fine(low_of(x) + low_of(y)) == rounded_fine(
        high_of(x) + high_of(y),
    )
}

/// What the sum of two numbers rounds to, where their readings settle it.
pub open spec fn settled(x: Reading, y: Reading) -> int {
    if low_of(x) + low_of(y) >= 0 {
        rounded_fine(low_of(x) + low_of(y))
    } else {
        rounded_fine(high_of(x) + high_of(y))
    }
}

/// The sum of two numbers as they are written, rounded once to a whole
/// number, halves away from zero. It is given for two numbers of magnitude
/// 2^31 at most whose readings at twenty-seven decimal places settle it, and
/// for no others.
pub open spec fn rounded_sum(a: Seq<char>, b: Seq<char>) -> Option<int> {
    match (
        reading_of(a, FINE_PLACES as int, FINE_LIMIT as int),
        reading_of(b, FINE_PLACES as int, FINE_LIMIT as int),
    ) {
        (Some(x), Some(y)) => if decided(x, y) {
            Some(exact_sum(number_parts(a).unwrap(), number_parts(b).unwrap()))
        } else {
            None
        },
        _ => None,
    }
}

/// Ten to a sum of exponents is the product of the powers.
pub proof fn lemma_pow10_add(a: nat, b: nat)
    ensures
        pow10(a + b) == pow10(a) * pow10(b),
    decreases a,
{
    if a > 0 {
        lemma_pow10_add((a - 1) as nat, b);
        let x = pow10((a - 1) as nat);
        let y = pow10(b);
        assert(pow10(a + b) == 10 * pow10((a - 1 + b) as nat));
        assert(pow10(a) == 10 * x);
        assert(10 * (x * y) == (10 * x) * y) by (nonlinear_arith);
    } else {
        assert(pow10(0) == 1);
        assert(1 * pow10(b) == pow10(b));
    }
}

/// Rounding does not depend on the place that a number is counted in: `k`
/// more places and `10^k` times as many units round alike.
pub proof fn lemma_rounded_at_scaled(n: int, places: nat, k: nat)
    ensures
        rounded_at(n * pow10(k), places + k) == rounded_at(n, places),
{
    let p = pow10(places) as int;
    let t = pow10(k) as int;
    lemma_pow10_add(places, k);
    lemma_pow10_monotonic(0, places);
    lemma_pow10_monotonic(0, k);
    if n >= 0 {
        assert(n * t >= 0) by (nonlinear_arith)
            requires
                n >= 0,
                t >= 1,
        ;
        assert(2 * (n * t) + p * t == t * (2 * n + p)) by (nonlinear_arith);
        assert(2 * (p * t) == t * (2 * p)) by (nonlinear_arith);
        lemma_div_multiples_vanish_quotient(t, 2 * n + p, 2 * p);
    } else {
        assert(n * t < 0) by (nonlinear_arith)
            requires
                n < 0,
                t >= 1,
        ;
        assert(-2 * (n * t) + p * t == t * (-2 * n + p)) by (nonlinear_arith);
        assert(2 * (p * t) == t * (2 * p)) by (nonlinear_arith);
        lemma_div_multiples_vanish_quotient(t, -2 * n + p, 2 * p);
    }
}

/// Rounding keeps the order of numbers.
pub proof fn lemma_rounded_at_ordered(n: int, m: int, places: nat)
    requires
        n <= m,
    ensures
        rounded_at(n, places) <= rounded_at(m, places),
{
    let p = pow10(places) as int;
    lemma_pow10_monotonic(0, places);
    if n >= 0 {
        lemma_div_is_ordered(2 * n + p, 2 * m + p, 2 * p);
    } else if m < 0 {
        lemma_div_is_ordered(-2 * m + p, -2 * n + p, 2 * p);
    } else {
        lemma_div_is_ordered(0, -2 * n + p, 2 * p);
        lemma_div_is_ordered(0, 2 * m + p, 2 * p);
        assert(0int / (2 * p) == 0) by (nonlinear_arith)
            requires
                p >= 1,
        ;
    }
}

/// A number lies between the two ends that its reading at twenty-seven
/// decimal places gives, counted at any later place: strictly between them
/// where something was cut off it, and at both where nothing was.
pub proof fn lemma_reading_ends(p: NumberParts, r: Reading, places: nat)
    requires
        places >= 27,
        p.scale <= places,
        r.magnitude == magnitude_at(p.digits, p.scale, 27),
        r.negative == p.negative,
        r.cut == loses_at(p.digits, p.scale, 27),
    ensures
        r.cut ==> low_of(r) * pow10((places - 27) as nat) < exact_at(p, places as int) < high_of(r)
            * pow10((places - 27) as nat),
        !r.cut ==> low_of(r) * pow10((places - 27) as nat) == exact_at(p, places as int)
            && low_of(r) == high_of(r),
{
    let d = digits_value(p.digits) as int;
    let m = r.magnitude as int;
    let t = pow10((places - 27) as nat) as int;
    let e = pow10((places - p.scale) as nat) as int;
    lemma_pow10_monotonic(0, (places - 27) as nat);
    if p.scale <= 27 {
        let c = pow10((27 - p.scale) as nat) as int;
        lemma_pow10_add((27 - p.scale) as nat, (places - 27) as nat);
        assert(e == c * t);
        assert(m == d * c);
        assert(d * (c * t) == (d * c) * t) by (nonlinear_arith);
        assert((-m) * t == -(m * t)) by (nonlinear_arith);
    } else {
        let c = pow10((p.scale - 27) as nat) as int;
        lemma_pow10_monotonic(0, (p.scale - 27) as nat);
        lemma_pow10_monotonic(0, (places - p.scale) as nat);
        lemma_pow10_add((p.scale - 27) as nat, (places - p.scale) as nat);
        assert(t == c * e);
        assert(m == d / c);
        lemma_fundamental_div_mod(d, c);
        lemma_mod_bound(d, c);
        if r.cut {
            assert(m * (c * e) < d * e && d * e < (m + 1) * (c * e)) by (nonlinear_arith)
                requires
                    d == c * m + d % c,
                    0 < d % c < c,
                    e >= 1,
            ;
        } else {
            assert(m * (c * e) == d * e) by (nonlinear_arith)
                requires
                    d == c * m + 0,
            ;
        }
        assert((-(m + 1)) * t == -((m + 1) * t)) by (nonlinear_arith);
        assert((-m) * t == -(m * t)) by (nonlinear_arith);
    }
}

/// A number strictly between two neighbouring units of the twenty-seventh
/// decimal place, at or above zero, rounds as the lower of the two does.
pub proof fn lemma_between_units(v: int, low: int, k: nat)
    requires
        low >= 0,
        low * pow10(k) < v < (low + 1) * pow10(k),
    ensures
        rounded_at(v, 27 + k) == rounded_fine(low),
{
    let whole = 1_000_000_000_000_000_000_000_000_000int;
    let half = 500_000_000_000_000_000_000_000_000int;
    let t = pow10(k) as int;
    let p = pow10(27 + k) as int;
    let q = (low + half) / whole;
    lemma_pow10_add(27, k);
    lemma_pow10_monotonic(0, k);
    assert(pow10(27) == whole) by {
        reveal_with_fuel(pow10, 28);
    }
    assert(p == whole * t);
    assert(whole * q <= low + half && low + 1 + half <= whole * (q + 1));
    assert(v > 0) by (nonlinear_arith)
        requires
            low >= 0,
            t >= 1,
            low * t < v,
    ;
    assert(2 * (p * q) <= 2 * v + p && 2 * v + p < 2 * (p * (q + 1))) by (nonlinear_arith)
        requires
            p == whole * t,
            t >= 1,
            low * t < v,
            v < (low + 1) * t,
            whole * q <= low + half,
            low + 1 + half <= whole * (q + 1),
            whole == 2 * half,
    ;
    let rest = 2 * v + p - 2 * (p * q);
    assert(2 * v + p == q * (2 * p) + rest) by (nonlinear_arith)
        requires
            rest == 2 * v + p - 2 * (p * q),
    ;
    assert(rest < 2 * p) by (nonlinear_arith)
        requires
            rest == 2 * v + p - 2 * (p * q),
            2 * v + p < 2 * (p * (q + 1)),
    ;
    lemma_fundamental_div_mod_converse_div(2 * v + p, 2 * p, q, rest);
}

/// A number strictly between two neighbouring units of the twenty-seventh
/// decimal place, at or below zero, rounds as the upper of the two does.
pub proof fn lemma_between_units_below(v: int, high: int, k: nat)
    requires
        high <= 0,
        (high - 1) * pow10(k) < v < high * pow10(k),
    ensures
        rounded_at(v, 27 + k) == rounded_fine(high),
{
    let t = pow10(k) as int;
    lemma_pow10_monotonic(0, k);
    assert((-high) * t < -v && -v < (-high + 1) * t) by (nonlinear_arith)
        requires
            (high - 1) * t < v,
            v < high * t,
    ;
    assert(v < 0) by (nonlinear_arith)
        requires
            high <= 0,
            t >= 1,
            v < high * t,
    ;
    lemma_between_units(-v, -high, k);
}

/// A number counted at a later place has as many times the units.
pub proof fn lemma_exact_at_scaled(p: NumberParts, places: nat, k: nat)
    requires
        p.scale <= places,
    ensures
        exact_at(p, (places + k) as int) == exact_at(p, places as int) * pow10(k),
{
    let d = digits_value(p.digits) as int;
    let c = pow10((places - p.scale) as nat) as int;
    let t = pow10(k) as int;
    lemma_pow10_add((places - p.scale) as nat, k);
    assert(d * (c * t) == (d * c) * t) by (nonlinear_arith);
    assert((-(d * c)) * t == -((d * c) * t)) by (nonlinear_arith);
}

/// Where the readings of two numbers settle what their sum rounds to, that is
/// what the sum of the numbers as they are written rounds to.
pub proof fn lemma_sum_exact(a: Seq<char>, b: Seq<char>)
    requires
        reading_of(a, FINE_PLACES as int, FINE_LIMIT as int) is Some,
        reading_of(b, FINE_PLACES as int, FINE_LIMIT as int) is Some,
        decided(
            reading_of(a, FINE_PLACES as int, FINE_LIMIT as int).unwrap(),
            reading_of(b, FINE_PLACES as int, FINE_LIMIT as int).unwrap(),
        ),
    ensures
        exact_sum(number_parts(a).unwrap(), number_parts(b).unwrap()) == settled(
            reading_of(a, FINE_PLACES as int, FINE_LIMIT as int).unwrap(),
            reading_of(b, FINE_PLACES as int, FINE_LIMIT as int).unwrap(),
        ),
{
    let p = number_parts(a).unwrap();
    let q = number_parts(b).unwrap();
    let x = reading_of(a, FINE_PLACES as int, FINE_LIMIT as int).unwrap();
    let y = reading_of(b, FINE_PLACES as int, FINE_LIMIT as int).unwrap();
    let places = common_places(p, q);
    let wide: nat = if places >= 27 {
        places
    } else {
        27
    };
    let k = (wide - places) as nat;
    let further = (wide - 27) as nat;
    let t = pow10(further) as int;
    let u = pow10(k) as int;
    let low = low_of(x) + low_of(y);
    let high = high_of(x) + high_of(y);
    let sum = exact_at(p, places as int) + exact_at(q, places as int);
    let wide_sum = exact_at(p, wide as int) + exact_at(q, wide as int);
    lemma_exact_at_scaled(p, places, k);
    lemma_exact_at_scaled(q, places, k);
    assert(wide_sum == sum * u) by (nonlinear_arith)
        requires
            wide_sum == exact_at(p, places as int) * u + exact_at(q, places as int) * u,
            sum == exact_at(p, places as int) + exact_at(q, places as int),
    ;
    lemma_rounded_at_scaled(sum, places, k);
    assert(rounded_at(wide_sum, wide) == rounded_at(sum, places));
    lemma_reading_ends(p, x, wide);
    lemma_reading_ends(q, y, wide);
    assert(low * t == low_of(x) * t + low_of(y) * t) by (nonlinear_arith)
        requires
            low == low_of(x) + low_of(y),
    ;
    assert(high * t == high_of(x) * t + high_of(y) * t) by (nonlinear_arith)
        requires
            high == high_of(x) + high_of(y),
    ;
    lemma_rounded_fine(low);
    lemma_rounded_fine(high);
    if x.cut && y.cut {
        lemma_rounded_at_ordered(low * t, wide_sum, wide);
        lemma_rounded_at_ordered(wide_sum, high * t, wide);
        lemma_rounded_at_scaled(low, 27, further);
        lemma_rounded_at_scaled(high, 27, further);
    } else if !x.cut && !y.cut {
        lemma_rounded_at_scaled(low, 27, further);
    } else {
        assert(high == low + 1);
        if low >= 0 {
            lemma_between_units(wide_sum, low, further);
        } else {
            lemma_between_units_below(wide_sum, high, further);
        }
    }
}

/// The sum of two numbers of magnitude 2^31 at most is given where at most
/// one of them has a digit other than zero beyond the twenty-seventh decimal
/// place.
pub proof fn lemma_sum_given(a: Seq<char>, b: Seq<char>)
    requires
        reading_of(a, FINE_PLACES as int, FINE_LIMIT as int) is Some,
        reading_of(b, FINE_PLACES as int, FINE_LIMIT as int) is Some,
        !loses_at(number_parts(a).unwrap().digits, number_parts(a).unwrap().scale, 27)
            || !loses_at(number_parts(b).unwrap().digits, number_parts(b).unwrap().scale, 27),
    ensures
        rounded_sum(a, b) == Some(exact_sum(number_parts(a).unwrap(), number_parts(b).unwrap())),
{
}

/// Rounding at the twenty-seventh decimal place, written with its numbers.
proof fn lemma_rounded_fine(n: int)
    ensures
        rounded_at(n, 27) == rounded_fine(n),
{
    reveal_with_fuel(pow10, 28);
    assert(pow10(27) == 1_000_000_000_000_000_000_000_000_000);
    let half = 500_000_000_000_000_000_000_000_000int;
    let whole = 1_000_000_000_000_000_000_000_000_000int;
    if n >= 0 {
        lemma_div_multiples_vanish_quotient(2, n + half, whole);
    } else {
        lemma_div_multiples_vanish_quotient(2, -n + half, whole);
    }
}

/// Rounds a number of units of the twenty-seventh decimal place.
fn round_fine(n: i128) -> (r: i128)
    requires
        -3 * FINE_LIMIT <= n <= 3 * FINE_LIMIT,
    ensures
        r == rounded_fine(n as int),
        -6_442_450_945 <= r <= 6_442_450_945,
{
    if n >= 0 {
        (n + 500_000_000_000_000_000_000_000_000) / 1_000_000_000_000_000_000_000_000_000
    } else {
        -((-n + 500_000_000_000_000_000_000_000_000) / 1_000_000_000_000_000_000_000_000_000)
    }
}

/// The sum of two numbers as they are written, rounded to a whole number.
pub fn round_sum(a: &str, b: &str) -> (r: Option<i64>)
    ensures
        match r {
            Some(x) => rounded_sum(a@, b@) == Some(x as int),
            None => rounded_sum(a@, b@) is None,
        },
{
    let x = match read_at(a, FINE_PLACES, FINE_LIMIT) {
        Some(x) => x,
        None => {
            return None;
        },
    };
    let y = match read_at(b, FINE_PLACES, FINE_LIMIT) {
        Some(y) => y,
        None => {
            return None;
        },
    };
    let x_low = if !x.negative {
        x.magnitude
    } else if x.cut {
        -(x.magnitude + 1)
    } else {
        -x.magnitude
    };
    let x_high = if x.negative {
        -x.magnitude
    } else if x.cut {
        x.magnitude + 1
    } else {
        x.magnitude
    };
    let y_low = if !y.negative {
        y.magnitude
    } else if y.cut {
        -(y.magnitude + 1)
    } else {
        -y.magnitude
    };
    let y_high = if y.negative {
        -y.magnitude
    } else if y.cut {
        y.magnitude + 1
    } else {
        y.magnitude
    };
    proof {
        if decided(x, y) {
            lemma_sum_exact(a@, b@);
        }
    }
    let low = round_fine(x_low + y_low);
    let high = round_fine(x_high + y_high);
    if x.cut && y.cut && low != high {
        None
    } else if x_low + y_low >= 0 {
        Some(low as i64)
    } else {
        Some(high as i64)
    }
}


} // verus!
