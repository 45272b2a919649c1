//! Strings as sequences of characters: comparison, ordering, trimming and
//! joining, stated over `Seq<char>`.

use vstd::prelude::*;
use vstd::relations::{sorted_by, total_ordering};
use vstd::seq_lib::{lemma_sorted_unique, to_multiset_build, to_multiset_insert};
use vstd::utf8::char_u32_cast;

verus! {

/// The character sequences of a sequence of strings.
pub open spec fn strings_view(v: Seq<String>) -> Seq<Seq<char>> {
    Seq::new(v.len(), |i: int| v[i]@)
}

/// The character sequences of a sequence of borrowed strings.
pub open spec fn texts_view(v: Seq<&String>) -> Seq<Seq<char>> {
    Seq::new(v.len(), |i: int| v[i]@)
}

/// A copy of a vector of strings.
pub fn clone_strings(v: &Vec<String>) -> (r: Vec<String>)
    ensures
        strings_view(r@) == strings_view(v@),
{
    let mut r: Vec<String> = Vec::new();
    let mut i: usize = 0;
    while i < v.len()
        invariant
            i <= v.len(),
            r.len() == i,
            forall|k: int| 0 <= k < i ==> r@[k]@ == v@[k]@,
        decreases v.len() - i,
    {
        r.push(v[i].clone());
        i += 1;
    }
    assert(strings_view(r@) =~= strings_view(v@));
    r
}

/// Appends one character with `String::push`: the string afterwards is the
/// string before followed by `c`.
#[verifier::external_body]
pub(crate) fn push_char(s: &mut String, c: char)
    ensures
        final(s)@ == old(s)@.push(c),
{
    s.push(c)
}

/// The characters of `s`, in order.
pub fn chars_of(s: &str) -> (v: Vec<char>)
    ensures
        v@ == s@,
{
    let mut v: Vec<char> = Vec::new();
    for c in it: s.chars()
        invariant
            v@ == it.seq().take(it.index() as int),
    {
        v.push(c);
    }
    v
}

/// The string made of the characters `v[from..to]`.
pub fn string_of_range(v: &Vec<char>, from: usize, to: usize) -> (s: String)
    requires
        from <= to <= v.len(),
    ensures
        s@ == v@.subrange(from as int, to as int),
{
    let mut s = String::new();
    let mut i: usize = from;
    while i < to
        invariant
            from <= i <= to <= v.len(),
            s@ == v@.subrange(from as int, i as int),
        decreases to - i,
    {
        push_char(&mut s, v[i]);
        i += 1;
    }
    s
}

/// The string made of the characters of `v`.
pub fn string_of(v: &Vec<char>) -> (s: String)
    ensures
        s@ == v@,
{
    let s = string_of_range(v, 0, v.len());
    assert(v@.subrange(0, v.len() as int) == v@);
    s
}

/// Whether two strings hold the same characters.
pub fn str_eq(a: &str, b: &str) -> (r: bool)
    ensures
        r == (a@ == b@),
{
    let x = chars_of(a);
    let y = chars_of(b);
    if x.len() != y.len() {
        return false;
    }
    let mut i: usize = 0;
    while i < x.len()
        invariant
            x@ == a@,
            y@ == b@,
            x.len() == y.len(),
            i <= x.len(),
            forall|k: int| 0 <= k < i ==> x@[k] == y@[k],
        decreases x.len() - i,
    {
        if x[i] != y[i] {
            return false;
        }
        i += 1;
    }
    assert(x@ =~= y@);
    true
}

/// Lexicographic order by code point on the characters from position `i` on:
/// whether `a[i..]` comes before `b[i..]` or equals it.
pub open spec fn lex_le_from(a: Seq<char>, b: Seq<char>, i: int) -> bool
    decreases a.len() - i,
{
    if i >= a.len() {
        true
    } else if i >= b.len() {
        false
    } else if a[i] != b[i] {
        (a[i] as u32) < (b[i] as u32)
    } else {
        lex_le_from(a, b, i + 1)
    }
}

/// Lexicographic order by code point, the order of `str`: `a <= b`.
pub open spec fn lex_le(a: Seq<char>, b: Seq<char>) -> bool {
    lex_le_from(a, b, 0)
}

/// Strict lexicographic order by code point: `a < b`.
pub open spec fn lex_lt(a: Seq<char>, b: Seq<char>) -> bool {
    lex_le(a, b) && a != b
}

/// Whether `a` comes before `b` or equals it, in lexicographic order by code point.
pub fn str_le(a: &str, b: &str) -> (r: bool)
    ensures
        r == lex_le(a@, b@),
{
    let x = chars_of(a);
    let y = chars_of(b);
    let mut i: usize = 0;
    while i < x.len() && i < y.len()
        invariant
            x@ == a@,
            y@ == b@,
            i <= x.len(),
            i <= y.len(),
            lex_le(a@, b@) == lex_le_from(a@, b@, i as int),
        decreases x.len() - i,
    {
        if x[i] != y[i] {
            assert(lex_le_from(a@, b@, i as int) == ((a@[i as int] as u32) < (b@[i as int] as u32)));
            return (x[i] as u32) < (y[i] as u32);
        }
        i += 1;
    }
    i >= x.len()
}

/// The first position at or behind `i` that does not hold `c`.
pub open spec fn skip_from(s: Seq<char>, c: char, i: int) -> int
    decreases s.len() - i,
{
    if 0 <= i < s.len() && s[i] == c {
        skip_from(s, c, i + 1)
    } else {
        i
    }
}

/// Where the text ends once the `c`s at its end are dropped, never before `lo`.
pub open spec fn skip_back(s: Seq<char>, c: char, lo: int, j: int) -> int
    decreases j - lo,
{
    if 0 <= lo < j <= s.len() && s[j - 1] == c {
        skip_back(s, c, lo, j - 1)
    } else {
        j
    }
}

/// The text without the `c`s at its beginning and at its end.
pub open spec fn trimmed(s: Seq<char>, c: char) -> Seq<char> {
    let from = skip_from(s, c, 0);
    s.subrange(from, skip_back(s, c, from, s.len() as int))
}

/// The text without the double quotes that surround it.
pub open spec fn unquoted(s: Seq<char>) -> Seq<char> {
    trimmed(s, '"')
}

/// Removes every double quote at the beginning and at the end of a text.
pub fn trim_quotes(s: &str) -> (r: String)
    ensures
        r@ == unquoted(s@),
{
    let v = chars_of(s);
    let mut from: usize = 0;
    while from < v.len() && v[from] == '"'
        invariant
            from <= v.len(),
            skip_from(v@, '"', 0) == skip_from(v@, '"', from as int),
        decreases v.len() - from,
    {
        from += 1;
    }
    let mut to: usize = v.len();
    while from < to && v[to - 1] == '"'
        invariant
            from <= to <= v.len(),
            skip_back(v@, '"', from as int, v.len() as int) == skip_back(
                v@,
                '"',
                from as int,
                to as int,
            ),
        decreases to,
    {
        to -= 1;
    }
    string_of_range(&v, from, to)
}

/// The texts joined, `sep` between each two.
pub open spec fn joined(values: Seq<Seq<char>>, sep: Seq<char>) -> Seq<char>
    decreases values.len(),
{
    if values.len() == 0 {
        Seq::empty()
    } else if values.len() == 1 {
        values[0]
    } else {
        joined(values.drop_last(), sep) + sep + values.last()
    }
}

/// Joins strings, `sep` between each two.
pub fn join(values: &Vec<String>, sep: &str) -> (r: String)
    ensures
        r@ == joined(strings_view(values@), sep@),
{
    let ghost all = strings_view(values@);
    let mut r = String::new();
    let mut i: usize = 0;
    assert(all.take(0) =~= Seq::<Seq<char>>::empty());
    while i < values.len()
        invariant
            i <= values.len(),
            all == strings_view(values@),
            r@ == joined(all.take(i as int), sep@),
        decreases values.len() - i,
    {
        assert(all.take(i + 1).drop_last() =~= all.take(i as int));
        assert(all.take(i + 1).last() == values@[i as int]@);
        if i > 0 {
            r.append(sep);
        } else {
            assert(r@ + values@[i as int]@ =~= values@[i as int]@);
            assert(all.take(1)[0] == values@[0]@);
        }
        r.append(values[i].as_str());
        i += 1;
    }
    assert(all.take(values.len() as int) =~= all);
    r
}

/// The order of strings as a relation.
pub open spec fn by_code_point() -> spec_fn(Seq<char>, Seq<char>) -> bool {
    |a: Seq<char>, b: Seq<char>| lex_le(a, b)
}

/// Whether the strings stand in ascending order.
pub open spec fn ascending(s: Seq<Seq<char>>) -> bool {
    forall|i: int, j: int| 0 <= i < j < s.len() ==> lex_le(#[trigger] s[i], #[trigger] s[j])
}

/// Of two strings one comes before the other or equals it.
pub proof fn lemma_lex_total(a: Seq<char>, b: Seq<char>, i: int)
    requires
        0 <= i,
    ensures
        lex_le_from(a, b, i) || lex_le_from(b, a, i),
    decreases a.len() - i,
{
    if i < a.len() && i < b.len() {
        if a[i] == b[i] {
            lemma_lex_total(a, b, i + 1);
        } else {
            // distinct characters have distinct code points
            char_u32_cast(a[i], a[i] as u32);
            char_u32_cast(b[i], b[i] as u32);
        }
    }
}

/// The order is transitive.
pub proof fn lemma_lex_transitive(a: Seq<char>, b: Seq<char>, c: Seq<char>, i: int)
    requires
        0 <= i,
        lex_le_from(a, b, i),
        lex_le_from(b, c, i),
    ensures
        lex_le_from(a, c, i),
    decreases a.len() - i,
{
    if i < a.len() && a[i] == b[i] && b[i] == c[i] {
        lemma_lex_transitive(a, b, c, i + 1);
    }
}

/// Two strings that agree before `i` and come before each other from `i` on
/// are equal.
pub proof fn lemma_lex_antisymmetric(a: Seq<char>, b: Seq<char>, i: int)
    requires
        0 <= i <= a.len(),
        i <= b.len(),
        a.take(i) == b.take(i),
        lex_le_from(a, b, i),
        lex_le_from(b, a, i),
    ensures
        a == b,
    decreases a.len() - i,
{
    if i < a.len() {
        assert(a.take(i + 1) =~= a.take(i).push(a[i]));
        assert(b.take(i + 1) =~= b.take(i).push(b[i]));
        lemma_lex_antisymmetric(a, b, i + 1);
    } else {
        assert(a.take(i) =~= a);
        assert(b.take(i) =~= b);
    }
}

/// What comes before a string that comes before or equals another comes
/// before that other.
pub proof fn lemma_lex_lt_le(a: Seq<char>, b: Seq<char>, c: Seq<char>)
    requires
        lex_lt(a, b),
        lex_le(b, c),
    ensures
        lex_lt(a, c),
{
    lemma_lex_transitive(a, b, c, 0);
    if a == c {
        assert(a.take(0) =~= b.take(0));
        lemma_lex_antisymmetric(a, b, 0);
    }
}

/// The order of strings is a total order.
pub proof fn lemma_lex_total_ordering()
    ensures
        total_ordering(by_code_point()),
{
    let r = by_code_point();
    assert forall|a: Seq<char>| #[trigger] r(a, a) by {
        lemma_lex_total(a, a, 0);
    }
    assert forall|a: Seq<char>, b: Seq<char>| #[trigger] r(a, b) && #[trigger] r(b, a) implies a
        == b by {
        assert(a.take(0) =~= b.take(0));
        lemma_lex_antisymmetric(a, b, 0);
    }
    assert forall|a: Seq<char>, b: Seq<char>, c: Seq<char>| #[trigger]
        r(a, b) && #[trigger] r(b, c) implies r(a, c) by {
        lemma_lex_transitive(a, b, c, 0);
    }
    assert forall|a: Seq<char>, b: Seq<char>| #[trigger] r(a, b) || #[trigger] r(b, a) by {
        lemma_lex_total(a, b, 0);
    }
}

/// Two ascending sequences that hold the same strings, each as often as the
/// other, are the same sequence.
pub proof fn lemma_ascending_unique(x: Seq<Seq<char>>, y: Seq<Seq<char>>)
    requires
        ascending(x),
        ascending(y),
        x.to_multiset() == y.to_multiset(),
    ensures
        x == y,
{
    lemma_lex_total_ordering();
    assert(sorted_by(x, by_code_point()));
    assert(sorted_by(y, by_code_point()));
    lemma_sorted_unique(x, y, by_code_point());
}

/// The strings in ascending order, each as often as it is given.
pub open spec fn sorted_strings(s: Seq<Seq<char>>) -> Seq<Seq<char>> {
    choose|r: Seq<Seq<char>>| ascending(r) && r.to_multiset() == s.to_multiset()
}

/// Ascending strings with one more string among them: behind the last that
/// does not come after it.
spec fn slotted(r: Seq<Seq<char>>, x: Seq<char>) -> Seq<Seq<char>>
    decreases r.len(),
{
    if r.len() == 0 {
        seq![x]
    } else if lex_le(r.last(), x) {
        r.push(x)
    } else {
        slotted(r.drop_last(), x).push(r.last())
    }
}

/// Slotting a string among ascending strings keeps them ascending, and
/// keeps every string.
proof fn lemma_slotted(r: Seq<Seq<char>>, x: Seq<char>)
    requires
        ascending(r),
    ensures
        ascending(slotted(r, x)),
        slotted(r, x).to_multiset() == r.to_multiset().insert(x),
        slotted(r, x).len() == r.len() + 1,
        forall|i: int| 0 <= i < slotted(r, x).len() ==> #[trigger] slotted(r, x)[i] == x || r.contains(
            slotted(r, x)[i],
        ),
    decreases r.len(),
{
    let after = slotted(r, x);
    if r.len() == 0 {
        to_multiset_build(r, x);
        assert(r.push(x) =~= seq![x]);
    } else if lex_le(r.last(), x) {
        to_multiset_build(r, x);
        assert forall|a: int, b: int| 0 <= a < b < after.len() implies lex_le(
            #[trigger] after[a],
            #[trigger] after[b],
        ) by {
            if b < r.len() {
                assert(lex_le(r[a], r[b]));
            } else if a < r.len() - 1 {
                assert(lex_le(r[a], r[r.len() - 1]));
                lemma_lex_transitive(r[a], r.last(), x, 0);
            }
        }
        assert forall|i: int| 0 <= i < after.len() implies #[trigger] after[i] == x || r.contains(
            after[i],
        ) by {
            if i < r.len() {
                assert(r[i] == after[i]);
            }
        }
    } else {
        let shorter = r.drop_last();
        let last = r.last();
        assert(ascending(shorter)) by {
            assert forall|a: int, b: int| 0 <= a < b < shorter.len() implies lex_le(
                #[trigger] shorter[a],
                #[trigger] shorter[b],
            ) by {
                assert(lex_le(r[a], r[b]));
            }
        }
        lemma_slotted(shorter, x);
        let inner = slotted(shorter, x);
        to_multiset_build(inner, last);
        to_multiset_build(shorter, last);
        assert(shorter.push(last) =~= r);
        assert(after.to_multiset() =~= r.to_multiset().insert(x));
        assert forall|i: int| 0 <= i < after.len() implies #[trigger] after[i] == x || r.contains(
            after[i],
        ) by {
            if i < inner.len() {
                if inner[i] != x {
                    assert(shorter.contains(inner[i]));
                    let w = choose|w: int| 0 <= w < shorter.len() && shorter[w] == inner[i];
                    assert(r[w] == inner[i]);
                }
            } else {
                assert(r[r.len() - 1] == after[i]);
            }
        }
        assert forall|a: int, b: int| 0 <= a < b < after.len() implies lex_le(
            #[trigger] after[a],
            #[trigger] after[b],
        ) by {
            if b < inner.len() {
                assert(lex_le(inner[a], inner[b]));
            } else if inner[a] == x {
                lemma_lex_total(last, x, 0);
            } else {
                assert(shorter.contains(inner[a]));
                let w = choose|w: int| 0 <= w < shorter.len() && shorter[w] == inner[a];
                assert(lex_le(r[w], r[r.len() - 1]));
            }
        }
    }
}

/// Any strings can be put in ascending order.
proof fn lemma_sorted_exists(s: Seq<Seq<char>>)
    ensures
        exists|r: Seq<Seq<char>>| ascending(r) && r.to_multiset() == s.to_multiset(),
    decreases s.len(),
{
    if s.len() == 0 {
        assert(ascending(s));
    } else {
        lemma_sorted_exists(s.drop_last());
        let r = choose|r: Seq<Seq<char>>|
            ascending(r) && r.to_multiset() == s.drop_last().to_multiset();
        lemma_slotted(r, s.last());
        to_multiset_build(s.drop_last(), s.last());
        assert(s.drop_last().push(s.last()) =~= s);
        let w = slotted(r, s.last());
        assert(ascending(w) && w.to_multiset() == s.to_multiset());
    }
}

/// The sorted strings stand in ascending order and are the strings that were
/// given, each as often.
pub proof fn lemma_sorted_strings(s: Seq<Seq<char>>)
    ensures
        ascending(sorted_strings(s)),
        sorted_strings(s).to_multiset() == s.to_multiset(),
{
    lemma_sorted_exists(s);
}

/// The order in which strings are given does not matter to their sorted
/// order: strings that are the same but for their order sort to the same
/// sequence.
pub proof fn lemma_sort_order_free(a: Seq<Seq<char>>, b: Seq<Seq<char>>)
    requires
        a.to_multiset() == b.to_multiset(),
    ensures
        sorted_strings(a) == sorted_strings(b),
{
    lemma_sorted_strings(a);
    lemma_sorted_strings(b);
    lemma_ascending_unique(sorted_strings(a), sorted_strings(b));
}

/// Sorting leaves ascending strings as they are, so sorting twice is sorting
/// once.
pub proof fn lemma_sort_idempotent(s: Seq<Seq<char>>)
    ensures
        ascending(s) ==> sorted_strings(s) == s,
        sorted_strings(sorted_strings(s)) == sorted_strings(s),
{
    lemma_sorted_strings(s);
    lemma_sorted_strings(sorted_strings(s));
    if ascending(s) {
        lemma_ascending_unique(sorted_strings(s), s);
    }
    lemma_ascending_unique(sorted_strings(sorted_strings(s)), sorted_strings(s));
}

/// The strings in ascending order by code point, each as often as it was given.
pub fn sort_strings(v: &Vec<String>) -> (r: Vec<String>)
    ensures
        ascending(strings_view(r@)),
        strings_view(r@).to_multiset() == strings_view(v@).to_multiset(),
        strings_view(r@) == sorted_strings(strings_view(v@)),
{
    let ghost all = strings_view(v@);
    let mut r: Vec<String> = Vec::new();
    let mut i: usize = 0;
    assert(all.take(0) =~= strings_view(r@));
    while i < v.len()
        invariant
            i <= v.len(),
            all == strings_view(v@),
            ascending(strings_view(r@)),
            strings_view(r@).to_multiset() == all.take(i as int).to_multiset(),
        decreases v.len() - i,
    {
        let s = v[i].clone();
        let ghost before = strings_view(r@);
        let mut p: usize = 0;
        while p < r.len() && str_le(r[p].as_str(), s.as_str())
            invariant
                p <= r.len(),
                before == strings_view(r@),
                forall|k: int| 0 <= k < p ==> lex_le(#[trigger] before[k], s@),
            decreases r.len() - p,
        {
            p += 1;
        }
        assert(p < r.len() ==> !lex_le(before[p as int], s@));
        r.insert(p, s);
        proof {
            let after = strings_view(r@);
            assert(after =~= before.insert(p as int, s@));
            assert forall|a: int, b: int| 0 <= a < b < after.len() implies lex_le(
                #[trigger] after[a],
                #[trigger] after[b],
            ) by {
                if b < p {
                    assert(lex_le(before[a], before[b]));
                } else if b == p {
                    assert(lex_le(before[a], s@));
                } else if a == p {
                    // s comes before before[p], and that before before[b - 1]
                    lemma_lex_total(before[p as int], s@, 0);
                    if b - 1 > p {
                        assert(lex_le(before[p as int], before[b - 1]));
                        lemma_lex_transitive(s@, before[p as int], before[b - 1], 0);
                    }
                } else if a < p {
                    assert(lex_le(before[a], before[b - 1]));
                } else {
                    assert(lex_le(before[a - 1], before[b - 1]));
                }
            }
            to_multiset_insert(before, p as int, s@);
            assert(all.take(i + 1) =~= all.take(i as int).push(s@));
            to_multiset_build(all.take(i as int), s@);
        }
        i += 1;
    }
    assert(all.take(v.len() as int) =~= all);
    proof {
        lemma_sorted_strings(all);
        lemma_ascending_unique(strings_view(r@), sorted_strings(all));
    }
    r
}

} // verus!
