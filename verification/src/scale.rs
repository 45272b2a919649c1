//! Scale bars: labels that name a length in a metric unit, and the lengths
//! of lines in thousandths of a pixel.

use crate::number::{bounded_micro, is_digit, read_micro};
use crate::text::{chars_of, string_of_range};
use vstd::prelude::*;

verus! {

/// Whether a character may stand in the number of a scale: a digit or a point.
pub open spec fn is_scale_char(c: char) -> bool {
    is_digit(c) || c == '.'
}

/// Whether a character is white space.
pub open spec fn is_blank(c: char) -> bool {
    c == ' ' || c == '\t' || c == '\n' || c == '\r'
}

/// Whether a character belongs to a word: an ASCII letter or digit, or an
/// underscore.
pub open spec fn is_word_char(c: char) -> bool {
    is_digit(c) || (65 <= c as u32 <= 90) || (97 <= c as u32 <= 122) || c == '_'
}

/// The end of the run of digits and points that starts at `i`.
pub open spec fn run_end(s: Seq<char>, i: int) -> int
    decreases s.len() - i,
{
    if 0 <= i < s.len() && is_scale_char(s[i]) {
        run_end(s, i + 1)
    } else {
        i
    }
}

/// The end of the white space that starts at `i`.
pub open spec fn blank_end(s: Seq<char>, i: int) -> int
    decreases s.len() - i,
{
    if 0 <= i < s.len() && is_blank(s[i]) {
        blank_end(s, i + 1)
    } else {
        i
    }
}

/// Whether `word` stands at `k` and no word goes on behind it.
pub open spec fn word_at(s: Seq<char>, k: int, word: Seq<char>) -> bool {
    &&& 0 <= k
    &&& k + word.len() <= s.len()
    &&& s.subrange(k, k + word.len()) == word
    &&& (k + word.len() == s.len() || !is_word_char(s[k + word.len()]))
}

/// The unit that stands at `k`: one of `mm`, `cm`, `dm` and `m`, as a whole
/// word.
pub open spec fn unit_at(s: Seq<char>, k: int) -> Option<Seq<char>> {
    if word_at(s, k, seq!['m', 'm']) {
        Some(seq!['m', 'm'])
    } else if word_at(s, k, seq!['c', 'm']) {
        Some(seq!['c', 'm'])
    } else if word_at(s, k, seq!['d', 'm']) {
        Some(seq!['d', 'm'])
    } else if word_at(s, k, seq!['m']) {
        Some(seq!['m'])
    } else {
        None
    }
}

/// A scale: the number as it is written, and the unit.
pub struct ScaleView {
    pub number: Seq<char>,
    pub units: Seq<char>,
}

/// The scale that the run of digits and points at `i` begins: the run is a
/// decimal number of at most 2^31, and a unit follows it, with or without
/// white space between them.
pub open spec fn scale_at(s: Seq<char>, i: int) -> Option<ScaleView> {
    let j = run_end(s, i);
    let number = s.subrange(i, j);
    let units = unit_at(s, blank_end(s, j));
    if 0 <= i < j && bounded_micro(number) is Some && units is Some {
        Some(ScaleView { number, units: units.unwrap() })
    } else {
        None
    }
}

/// The first scale that a text names from `i` on, `i` no place inside a run.
pub open spec fn scale_from(s: Seq<char>, i: int) -> Option<ScaleView>
    decreases s.len() - i,
{
    if i < 0 || i >= s.len() {
        None
    } else if is_scale_char(s[i]) {
        if scale_at(s, i) is Some {
            scale_at(s, i)
        } else if i < run_end(s, i) <= s.len() {
            scale_from(s, run_end(s, i))
        } else {
            None
        }
    } else {
        scale_from(s, i + 1)
    }
}

/// The scale that a label names, if it names one: the first decimal number
/// in it that a metric unit of length follows, as in `scale bar 5 cm`.
pub open spec fn scale_of(label: Seq<char>) -> Option<ScaleView> {
    scale_from(label, 0)
}

/// A scale found in a label: the number as it is written, its value in
/// millionths, and the unit.
#[derive(Clone, Debug, PartialEq, Eq)]
pub struct Scale {
    pub number: String,
    pub micro: i64,
    pub units: String,
}

fn is_scale_character(c: char) -> (r: bool)
    ensures
        r == is_scale_char(c),
{
    (48 <= c as u32 && c as u32 <= 57) || c == '.'
}

fn is_word_character(c: char) -> (r: bool)
    ensures
        r == is_word_char(c),
{
    let code = c as u32;
    (48 <= code && code <= 57) || (65 <= code && code <= 90) || (97 <= code && code <= 122) || c
        == '_'
}

/// Whether no word goes on at `k`.
fn at_word_end(v: &Vec<char>, k: usize) -> (r: bool)
    requires
        k <= v.len(),
    ensures
        r == (k == v.len() || !is_word_char(v@[k as int])),
{
    k == v.len() || !is_word_character(v[k])
}

/// The unit that stands at `k`, as its first letter and its length.
fn read_unit(v: &Vec<char>, k: usize) -> (r: Option<(char, usize)>)
    requires
        k <= v.len(),
    ensures
        match r {
            Some((first, len)) => {
                &&& k + len <= v.len()
                &&& unit_at(v@, k as int) == Some(v@.subrange(k as int, k + len))
                &&& (len == 1 || len == 2)
            },
            None => unit_at(v@, k as int) is None,
        },
{
    if v.len() - k >= 2 && v[k + 1] == 'm' && (v[k] == 'm' || v[k] == 'c' || v[k] == 'd')
        && at_word_end(v, k + 2) {
        proof {
            assert(v@.subrange(k as int, k + 2) =~= seq![v@[k as int], 'm']);
            assert(seq!['m', 'm'] != seq!['c', 'm']) by {
                assert(seq!['m', 'm'][0] != seq!['c', 'm'][0]);
            }
            assert(seq!['m', 'm'] != seq!['d', 'm']) by {
                assert(seq!['m', 'm'][0] != seq!['d', 'm'][0]);
            }
            assert(seq!['c', 'm'] != seq!['d', 'm']) by {
                assert(seq!['c', 'm'][0] != seq!['d', 'm'][0]);
            }
        }
        return Some((v[k], 2));
    }
    proof {
        // none of the units of two letters stands at k
        if k + 2 <= v.len() {
            let two = v@.subrange(k as int, k + 2);
            assert(two[0] == v@[k as int]);
            assert(two[1] == v@[k + 1]);
            assert(seq!['m', 'm'][0] == 'm' && seq!['m', 'm'][1] == 'm');
            assert(seq!['c', 'm'][0] == 'c' && seq!['c', 'm'][1] == 'm');
            assert(seq!['d', 'm'][0] == 'd' && seq!['d', 'm'][1] == 'm');
        }
    }
    if v.len() - k >= 1 && v[k] == 'm' && at_word_end(v, k + 1) {
        proof {
            assert(v@.subrange(k as int, k + 1) =~= seq!['m']);
        }
        return Some(('m', 1));
    }
    proof {
        if k + 1 <= v.len() {
            let one = v@.subrange(k as int, k + 1);
            assert(one[0] == v@[k as int]);
            assert(seq!['m'][0] == 'm');
        }
    }
    None
}

/// The scale that a label names, if it names one.
pub fn detect_scale(label: &str) -> (r: Option<Scale>)
    ensures
        match r {
            Some(scale) => {
                &&& scale_of(label@) == Some(
                    ScaleView { number: scale.number@, units: scale.units@ },
                )
                &&& bounded_micro(scale.number@) == Some(scale.micro as int)
                &&& scale.micro >= 0
            },
            None => scale_of(label@) is None,
        },
{
    let v = chars_of(label);
    let n = v.len();
    let mut i: usize = 0;
    while i < n
        invariant
            i <= n,
            n == v.len(),
            v@ == label@,
            scale_of(label@) == scale_from(v@, i as int),
        decreases n - i,
    {
        if !is_scale_character(v[i]) {
            i += 1;
        } else {
            let mut j: usize = i;
            while j < n && is_scale_character(v[j])
                invariant
                    i <= j <= n,
                    n == v.len(),
                    run_end(v@, i as int) == run_end(v@, j as int),
                decreases n - j,
            {
                j += 1;
            }
            let mut k: usize = j;
            while k < n && (v[k] == ' ' || v[k] == '\t' || v[k] == '\n' || v[k] == '\r')
                invariant
                    j <= k <= n,
                    n == v.len(),
                    blank_end(v@, j as int) == blank_end(v@, k as int),
                decreases n - k,
            {
                k += 1;
            }
            let number = string_of_range(&v, i, j);
            let value = read_micro(number.as_str());
            let unit = read_unit(&v, k);
            match (value, unit) {
                (Some(micro), Some((_, len))) => {
                    let units = string_of_range(&v, k, k + len);
                    return Some(Scale { number, micro, units });
                },
                _ => {},
            }
            i = j;
        }
    }
    None
}

/// Whether `r` is the square root of `n`, rounded down.
pub open spec fn is_root(n: nat, r: nat) -> bool {
    r * r <= n < (r + 1) * (r + 1)
}

/// The square root of `n`, rounded down.
pub open spec fn root(n: nat) -> nat {
    choose|r: nat| is_root(n, r)
}

/// The rounded square root is the only number that `is_root` admits.
pub proof fn lemma_root_unique(n: nat, r: nat)
    requires
        is_root(n, r),
    ensures
        root(n) == r,
{
    let k = root(n);
    assert(is_root(n, k));
    if k < r {
        assert((k + 1) * (k + 1) <= r * r) by (nonlinear_arith)
            requires
                k + 1 <= r,
        ;
    } else if r < k {
        assert((r + 1) * (r + 1) <= k * k) by (nonlinear_arith)
            requires
                r + 1 <= k,
        ;
    }
}

/// The square root of `n`, rounded down.
pub fn isqrt(n: u128) -> (r: u64)
    ensures
        r == root(n as nat),
        is_root(n as nat, r as nat),
{
    let mut lo: u128 = 0;
    let mut hi: u128 = 0x1_0000_0000_0000_0000;
    assert(hi * hi > n) by (nonlinear_arith)
        requires
            hi == 0x1_0000_0000_0000_0000,
            n <= 0xffff_ffff_ffff_ffff_ffff_ffff_ffff_ffff,
    ;
    while hi - lo > 1
        invariant
            lo < hi <= 0x1_0000_0000_0000_0000,
            lo * lo <= n < hi * hi,
        decreases hi - lo,
    {
        let mid = lo + (hi - lo) / 2;
        assert(mid * mid <= 0xffff_ffff_ffff_ffff_ffff_ffff_ffff_ffff) by (nonlinear_arith)
            requires
                mid <= 0xffff_ffff_ffff_ffff,
        ;
        if mid * mid <= n {
            lo = mid;
        } else {
            hi = mid;
        }
    }
    proof {
        lemma_root_unique(n as nat, lo as nat);
    }
    lo as u64
}

} // verus!
