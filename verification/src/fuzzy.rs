//! Near matches between texts: the edit distance, and the merging of texts
//! that lie within a distance of an earlier one.

use crate::text::{chars_of, texts_view};
use vstd::prelude::*;

verus! {

/// The least of three numbers.
pub open spec fn min3(a: nat, b: nat, c: nat) -> nat {
    if a <= b && a <= c {
        a
    } else if b <= c {
        b
    } else {
        c
    }
}

/// The edit distance of two texts: the least number of characters to insert,
/// to delete or to replace by another that turns the one into the other.
pub open spec fn edit_distance(a: Seq<char>, b: Seq<char>) -> nat
    decreases a.len() + b.len(),
{
    if a.len() == 0 {
        b.len()
    } else if b.len() == 0 {
        a.len()
    } else {
        min3(
            edit_distance(a.drop_last(), b) + 1,
            edit_distance(a, b.drop_last()) + 1,
            edit_distance(a.drop_last(), b.drop_last()) + if a.last() == b.last() {
                0nat
            } else {
                1nat
            },
        )
    }
}

/// Whether two texts lie within a distance of each other.
pub open spec fn near(a: Seq<char>, b: Seq<char>, distance: nat) -> bool {
    edit_distance(a, b) <= distance
}

/// The distance of two texts is no more than the length of the longer.
pub proof fn lemma_distance_bound(a: Seq<char>, b: Seq<char>)
    ensures
        edit_distance(a, b) <= if a.len() >= b.len() {
            a.len()
        } else {
            b.len()
        },
    decreases a.len() + b.len(),
{
    if a.len() > 0 && b.len() > 0 {
        lemma_distance_bound(a.drop_last(), b.drop_last());
    }
}

/// The distance of two texts is no less than the difference of their lengths.
pub proof fn lemma_distance_lengths(a: Seq<char>, b: Seq<char>)
    ensures
        edit_distance(a, b) >= a.len() - b.len(),
        edit_distance(a, b) >= b.len() - a.len(),
    decreases a.len() + b.len(),
{
    if a.len() > 0 && b.len() > 0 {
        lemma_distance_lengths(a.drop_last(), b);
        lemma_distance_lengths(a, b.drop_last());
        lemma_distance_lengths(a.drop_last(), b.drop_last());
    }
}

/// Texts at distance zero are the same text, and a text is at distance zero
/// from itself.
pub proof fn lemma_distance_zero(a: Seq<char>, b: Seq<char>)
    ensures
        edit_distance(a, b) == 0 <==> a == b,
    decreases a.len() + b.len(),
{
    if a.len() == 0 || b.len() == 0 {
        if a.len() == 0 && b.len() == 0 {
            assert(a =~= b);
        }
    } else {
        lemma_distance_zero(a.drop_last(), b.drop_last());
        lemma_distance_lengths(a.drop_last(), b);
        lemma_distance_lengths(a, b.drop_last());
        if a == b {
            assert(edit_distance(a.drop_last(), b.drop_last()) == 0);
        }
        if edit_distance(a, b) == 0 {
            assert(a.drop_last() == b.drop_last());
            assert(a.last() == b.last());
            assert(a =~= a.drop_last().push(a.last()));
            assert(b =~= b.drop_last().push(b.last()));
        }
    }
}

/// The edit distance of two texts.
pub fn distance(a: &str, b: &str) -> (r: u128)
    ensures
        r == edit_distance(a@, b@),
{
    let x = chars_of(a);
    let y = chars_of(b);
    let n = x.len();
    let m = y.len();
    // the distances of the beginning of `a` that has been gone over from
    // each beginning of `b`
    let mut row: Vec<u128> = Vec::new();
    row.push(0);
    let mut j: usize = 0;
    while j < m
        invariant
            j <= m,
            m == y.len(),
            row@.len() == j + 1,
            forall|k: int| 0 <= k <= j ==> #[trigger] row@[k] == k,
        decreases m - j,
    {
        row.push(j as u128 + 1);
        j += 1;
    }
    assert(x@.take(0) =~= Seq::<char>::empty());
    let mut i: usize = 0;
    while i < n
        invariant
            i <= n,
            n == x.len(),
            m == y.len(),
            row@.len() == m + 1,
            forall|k: int|
                0 <= k <= m ==> #[trigger] row@[k] == edit_distance(x@.take(i as int), y@.take(k)),
        decreases n - i,
    {
        let ghost above = row@;
        let ghost now = x@.take(i + 1);
        let ghost before = x@.take(i as int);
        assert(now.drop_last() =~= before);
        assert(now.last() == x@[i as int]);
        let mut next: Vec<u128> = Vec::new();
        assert(y@.take(0) =~= Seq::<char>::empty());
        next.push(i as u128 + 1);
        let mut j: usize = 0;
        while j < m
            invariant
                j <= m,
                i < n,
                n == x.len(),
                m == y.len(),
                now == x@.take(i + 1),
                before == x@.take(i as int),
                now.drop_last() == before,
                now.last() == x@[i as int],
                row@ == above,
                above.len() == m + 1,
                forall|k: int|
                    0 <= k <= m ==> #[trigger] above[k] == edit_distance(before, y@.take(k)),
                next@.len() == j + 1,
                forall|k: int| 0 <= k <= j ==> #[trigger] next@[k] == edit_distance(now, y@.take(k)),
            decreases m - j,
        {
            let ghost ahead = y@.take(j + 1);
            proof {
                assert(ahead.drop_last() =~= y@.take(j as int));
                assert(ahead.last() == y@[j as int]);
                lemma_distance_bound(before, ahead);
                lemma_distance_bound(now, y@.take(j as int));
                lemma_distance_bound(before, y@.take(j as int));
                assert(above[j + 1] == edit_distance(before, ahead));
                assert(above[j as int] == edit_distance(before, y@.take(j as int)));
                assert(next@[j as int] == edit_distance(now, y@.take(j as int)));
            }
            let delete = row[j + 1] + 1;
            let insert = next[j] + 1;
            let replace = row[j] + if x[i] == y[j] {
                0
            } else {
                1
            };
            let least = if delete <= insert && delete <= replace {
                delete
            } else if insert <= replace {
                insert
            } else {
                replace
            };
            next.push(least);
            j += 1;
        }
        row = next;
        i += 1;
    }
    assert(x@.take(n as int) =~= x@);
    assert(y@.take(m as int) =~= y@);
    row[m]
}

/// Whether two texts lie within a distance of each other.
pub fn is_near(a: &str, b: &str, max_distance: usize) -> (r: bool)
    ensures
        r == near(a@, b@, max_distance as nat),
{
    distance(a, b) <= max_distance as u128
}

/// Where the text stands that the text at `i` is merged into: the first
/// earlier text that is merged into none itself and lies within the distance
/// of the text at `i`; `i` itself where there is none.
pub open spec fn head_of(texts: Seq<Seq<char>>, distance: nat, i: int) -> int
    decreases i, i + 1,
{
    if i < 0 {
        i
    } else {
        first_head(texts, distance, i, 0)
    }
}

/// The first text from `k` on that the text at `i` can be merged into.
pub open spec fn first_head(texts: Seq<Seq<char>>, distance: nat, i: int, k: int) -> int
    decreases i, i - k,
{
    if k < 0 || k >= i {
        i
    } else if head_of(texts, distance, k) == k && near(texts[k], texts[i], distance) {
        k
    } else {
        first_head(texts, distance, i, k + 1)
    }
}

/// The texts with each text replaced by the one that it is merged into.
pub open spec fn merged(texts: Seq<Seq<char>>, distance: nat) -> Seq<Seq<char>> {
    Seq::new(texts.len(), |i: int| texts[head_of(texts, distance, i)])
}

/// A text is merged into itself or into an earlier text within the distance.
pub proof fn lemma_first_head(texts: Seq<Seq<char>>, distance: nat, i: int, k: int)
    requires
        0 <= k <= i,
    ensures
        k <= first_head(texts, distance, i, k) <= i,
        first_head(texts, distance, i, k) < i ==> near(
            texts[first_head(texts, distance, i, k)],
            texts[i],
            distance,
        ),
    decreases i - k,
{
    if k < i && !(head_of(texts, distance, k) == k && near(texts[k], texts[i], distance)) {
        lemma_first_head(texts, distance, i, k + 1);
    }
}

/// Within the distance zero nothing is merged: every text stays as it is.
pub proof fn lemma_merged_exact(texts: Seq<Seq<char>>)
    ensures
        merged(texts, 0) == texts,
{
    assert forall|i: int| 0 <= i < texts.len() implies #[trigger] merged(texts, 0)[i]
        == texts[i] by {
        lemma_first_head(texts, 0, i, 0);
        let h = head_of(texts, 0, i);
        if h < i {
            lemma_distance_zero(texts[h], texts[i]);
        }
    }
    assert(merged(texts, 0) =~= texts);
}

/// Merges each text into the first earlier text that lies within the
/// distance of it and is merged into none itself.
pub fn merge_near<'a>(texts: &Vec<&'a String>, max_distance: usize) -> (r: Vec<&'a String>)
    ensures
        texts_view(r@) == merged(texts_view(texts@), max_distance as nat),
{
    let ghost all = texts_view(texts@);
    let ghost d = max_distance as nat;
    let mut heads: Vec<usize> = Vec::new();
    let mut r: Vec<&'a String> = Vec::new();
    let mut i: usize = 0;
    while i < texts.len()
        invariant
            i <= texts.len(),
            all == texts_view(texts@),
            d == max_distance as nat,
            heads@.len() == i,
            r@.len() == i,
            forall|k: int| 0 <= k < i ==> #[trigger] heads@[k] == head_of(all, d, k),
            forall|k: int| 0 <= k < i ==> (#[trigger] r@[k])@ == all[head_of(all, d, k)],
        decreases texts.len() - i,
    {
        let mut k: usize = 0;
        while k < i && !(heads[k] == k && is_near(
            texts[k].as_str(),
            texts[i].as_str(),
            max_distance,
        ))
            invariant
                k <= i < texts.len(),
                all == texts_view(texts@),
                d == max_distance as nat,
                heads@.len() == i,
                forall|j: int| 0 <= j < i ==> #[trigger] heads@[j] == head_of(all, d, j),
                head_of(all, d, i as int) == first_head(all, d, i as int, k as int),
            decreases i - k,
        {
            k += 1;
        }
        let head = k;
        assert(head == head_of(all, d, i as int));
        proof {
            lemma_first_head(all, d, i as int, 0);
        }
        heads.push(head);
        r.push(texts[head]);
        i += 1;
    }
    assert(texts_view(r@) =~= merged(all, d));
    r
}

} // verus!
