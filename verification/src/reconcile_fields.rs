//! The rules of reconciliation: from the values that the classifications of
//! one subject hold in one column to the one value of the subject.

use crate::flat::{FieldView, FlatField, Shape};
use crate::number::{bounded_micro, decimal, int_to_string};
use crate::fuzzy::{lemma_merged_exact, merge_near, merged};
use crate::text::{
    join, joined, lemma_lex_antisymmetric, lemma_lex_lt_le, lemma_lex_total, lex_le, lex_lt, str_eq,
    str_le, strings_view, texts_view,
};
use crate::reconciled::{ReconciledField, ReconciledFlag, ReconciledResult, ReconciledView, ResultView};
use crate::scale::{detect_scale, isqrt, root, scale_of};
use vstd::prelude::*;

verus! {

/// The values of a column as the contracts see them.
pub open spec fn cells_view(fields: Seq<&FlatField>) -> Seq<FieldView> {
    Seq::new(fields.len(), |i: int| fields[i]@)
}

/// The word for a count (`pluralizer::pluralize` without the count before
/// it): the singular for a count of one, else the plural, by the rules that
/// the process holds at this moment. Any program may add rules to them, so
/// nothing is promised of the word.
#[verifier::external_body]
fn word_for(word: &str, count: isize) -> String {
    pluralizer::pluralize(word, count, false)
}

/// The word for a count of records: the word that the pluralizer gives for
/// the count as `count_for` hands it over.
fn counted_word(word: &str, count: usize) -> String {
    word_for(word, count_for(count))
}

/// The count as it is handed to the pluralizer: the count itself where it
/// is below 2^31, else 2^31 - 1. It is one exactly where the count is one,
/// which is all that the choice between singular and plural looks at.
fn count_for(count: usize) -> (r: isize)
    ensures
        r == if count <= 0x7fff_ffff {
            count as int
        } else {
            0x7fff_ffff
        },
        r == 1 <==> count == 1,
{
    if count > 0x7fff_ffff {
        0x7fff_ffff
    } else {
        count as isize
    }
}

/// The note that counts the values of a kind: `There are 3 box records`, with
/// the verb and the noun as they are given.
pub open spec fn count_note(verb: Seq<char>, count: nat, kind: Seq<char>, noun: Seq<char>) -> Seq<
    char,
> {
    "There "@ + verb + " "@ + decimal(count as int) + " "@ + kind + " "@ + noun
}

/// The note that says that there is no value of a kind.
pub open spec fn none_note(kind: Seq<char>) -> Seq<char> {
    "There are no "@ + kind + " records"@
}

/// Writes the note on the values of a kind: how many there are, or that there
/// are none.
fn note_for(verb: &str, count: usize, kind: &str, noun: &str) -> (r: String)
    ensures
        r@ == if count == 0 {
            none_note(kind@)
        } else {
            count_note(verb@, count as nat, kind@, noun@)
        },
{
    let mut r = String::from_str("There ");
    if count == 0 {
        r.append("are no ");
        r.append(kind);
        r.append(" records");
        proof {
            reveal_strlit("There ");
            reveal_strlit("are no ");
            reveal_strlit("There are no ");
            assert("There "@ + "are no "@ =~= "There are no "@);
            assert(r@ =~= none_note(kind@));
        }
    } else {
        r.append(verb);
        r.append(" ");
        r.append(int_to_string(count as i128).as_str());
        r.append(" ");
        r.append(kind);
        r.append(" ");
        r.append(noun);
    }
    r
}

/// One of the numbers that a value may hold.
#[derive(Clone, Copy, Debug, PartialEq, Eq, Structural)]
pub enum Axis {
    Left,
    Top,
    Right,
    Bottom,
    X1,
    Y1,
    X2,
    Y2,
    X,
    Y,
}

/// The number that a value holds along an axis, if it holds one.
pub open spec fn along(value: FieldView, axis: Axis) -> Option<int> {
    match (value, axis) {
        (FieldView::Box_ { left, .. }, Axis::Left) => Some(left),
        (FieldView::Box_ { top, .. }, Axis::Top) => Some(top),
        (FieldView::Box_ { right, .. }, Axis::Right) => Some(right),
        (FieldView::Box_ { bottom, .. }, Axis::Bottom) => Some(bottom),
        (FieldView::Length { x1, .. }, Axis::X1) => Some(x1),
        (FieldView::Length { y1, .. }, Axis::Y1) => Some(y1),
        (FieldView::Length { x2, .. }, Axis::X2) => Some(x2),
        (FieldView::Length { y2, .. }, Axis::Y2) => Some(y2),
        (FieldView::Point { x, .. }, Axis::X) => Some(x),
        (FieldView::Point { y, .. }, Axis::Y) => Some(y),
        _ => None,
    }
}

/// How many of the values have the given shape.
pub open spec fn count_of(cells: Seq<FieldView>, shape: Shape) -> nat
    decreases cells.len(),
{
    if cells.len() == 0 {
        0
    } else {
        count_of(cells.drop_last(), shape) + if cells.last().shape() == shape {
            1nat
        } else {
            0nat
        }
    }
}

/// The sum of the numbers that the values hold along an axis.
pub open spec fn sum_along(cells: Seq<FieldView>, axis: Axis) -> int
    decreases cells.len(),
{
    if cells.len() == 0 {
        0
    } else {
        sum_along(cells.drop_last(), axis) + match along(cells.last(), axis) {
            Some(number) => number,
            None => 0,
        }
    }
}

/// The quotient of a sum by a count, rounded to a whole number, halves away
/// from zero; zero for a count of zero.
pub open spec fn mean(sum: int, count: nat) -> int {
    if count == 0 {
        0
    } else if sum >= 0 {
        (2 * sum + count) / (2 * (count as int))
    } else {
        -((-2 * sum + count) / (2 * (count as int)))
    }
}

/// The mean of the numbers that the values of a shape hold along an axis.
pub open spec fn mean_along(cells: Seq<FieldView>, shape: Shape, axis: Axis) -> int {
    mean(sum_along(cells, axis), count_of(cells, shape))
}

/// The mean of numbers of the pixel type is of the pixel type.
pub proof fn lemma_mean_in_range(sum: int, count: nat)
    requires
        count > 0,
        -2_147_483_648 * count <= sum <= 2_147_483_647 * count,
    ensures
        -2_147_483_648 <= mean(sum, count) <= 2_147_483_647,
{
    let c = count as int;
    if sum >= 0 {
        assert((2 * sum + c) / (2 * c) <= 2_147_483_647) by (nonlinear_arith)
            requires
                c > 0,
                0 <= sum <= 2_147_483_647 * c,
        ;
        assert((2 * sum + c) / (2 * c) >= 0) by (nonlinear_arith)
            requires
                c > 0,
                0 <= sum,
        ;
    } else {
        assert((-2 * sum + c) / (2 * c) <= 2_147_483_648) by (nonlinear_arith)
            requires
                c > 0,
                0 <= -sum <= 2_147_483_648 * c,
        ;
        assert((-2 * sum + c) / (2 * c) >= 0) by (nonlinear_arith)
            requires
                c > 0,
                0 <= -sum,
        ;
    }
}

/// The number that a value holds along an axis, if it holds one.
fn number_along(value: &FlatField, axis: Axis) -> (r: Option<i32>)
    ensures
        match r {
            Some(number) => along(value@, axis) == Some(number as int),
            None => along(value@, axis) is None,
        },
{
    match (value, axis) {
        (FlatField::Box_ { left, .. }, Axis::Left) => Some(*left),
        (FlatField::Box_ { top, .. }, Axis::Top) => Some(*top),
        (FlatField::Box_ { right, .. }, Axis::Right) => Some(*right),
        (FlatField::Box_ { bottom, .. }, Axis::Bottom) => Some(*bottom),
        (FlatField::Length { x1, .. }, Axis::X1) => Some(*x1),
        (FlatField::Length { y1, .. }, Axis::Y1) => Some(*y1),
        (FlatField::Length { x2, .. }, Axis::X2) => Some(*x2),
        (FlatField::Length { y2, .. }, Axis::Y2) => Some(*y2),
        (FlatField::Point { x, .. }, Axis::X) => Some(*x),
        (FlatField::Point { y, .. }, Axis::Y) => Some(*y),
        _ => None,
    }
}

/// How many of the values have the given shape.
pub fn count_shape(fields: &Vec<&FlatField>, shape: Shape) -> (count: usize)
    ensures
        count == count_of(cells_view(fields@), shape),
{
    let ghost cells = cells_view(fields@);
    let mut count: usize = 0;
    let mut i: usize = 0;
    assert(cells.take(0) =~= Seq::<FieldView>::empty());
    while i < fields.len()
        invariant
            i <= fields.len(),
            cells == cells_view(fields@),
            count <= i,
            count == count_of(cells.take(i as int), shape),
        decreases fields.len() - i,
    {
        assert(cells.take(i + 1).drop_last() =~= cells.take(i as int));
        if fields[i].shape() == shape {
            count += 1;
        }
        i += 1;
    }
    assert(cells.take(fields.len() as int) =~= cells);
    count
}

/// Whether the axis is one of the numbers of the shape.
pub open spec fn axis_of(shape: Shape, axis: Axis) -> bool {
    match shape {
        Shape::Box_ => axis == Axis::Left || axis == Axis::Top || axis == Axis::Right || axis
            == Axis::Bottom,
        Shape::Length => axis == Axis::X1 || axis == Axis::Y1 || axis == Axis::X2 || axis
            == Axis::Y2,
        Shape::Point => axis == Axis::X || axis == Axis::Y,
        _ => false,
    }
}

/// The mean of the numbers that the values of a shape hold along one of the
/// axes of the shape, rounded to a whole pixel.
fn mean_of(fields: &Vec<&FlatField>, shape: Shape, axis: Axis) -> (r: i32)
    requires
        axis_of(shape, axis),
    ensures
        r == mean_along(cells_view(fields@), shape, axis),
{
    let ghost cells = cells_view(fields@);
    let mut sum: i128 = 0;
    let mut count: usize = 0;
    let mut i: usize = 0;
    assert(cells.take(0) =~= Seq::<FieldView>::empty());
    while i < fields.len()
        invariant
            i <= fields.len(),
            cells == cells_view(fields@),
            axis_of(shape, axis),
            count <= i,
            count == count_of(cells.take(i as int), shape),
            sum == sum_along(cells.take(i as int), axis),
            -2_147_483_648 * count <= sum <= 2_147_483_647 * count,
        decreases fields.len() - i,
    {
        assert(cells.take(i + 1).drop_last() =~= cells.take(i as int));
        match number_along(fields[i], axis) {
            Some(number) => {
                sum = sum + number as i128;
                count += 1;
            },
            None => {},
        }
        i += 1;
    }
    assert(cells.take(fields.len() as int) =~= cells);
    if count == 0 {
        0
    } else {
        proof {
            lemma_mean_in_range(sum as int, count as nat);
        }
        let c = count as i128;
        let whole = if sum >= 0 {
            (2 * sum + c) / (2 * c)
        } else {
            -((-2 * sum + c) / (2 * c))
        };
        whole as i32
    }
}

/// The reconciled box of the values: the mean of each edge over the boxes
/// among them, rounded to whole pixels. The flag is `Okay`, or `Empty` where
/// no value is a box; the notes count the boxes.
pub open spec fn box_cell(cells: Seq<FieldView>, verb: Seq<char>, noun: Seq<char>) -> ReconciledView {
    let count = count_of(cells, Shape::Box_);
    ReconciledView::Box_ {
        left: mean_along(cells, Shape::Box_, Axis::Left),
        top: mean_along(cells, Shape::Box_, Axis::Top),
        right: mean_along(cells, Shape::Box_, Axis::Right),
        bottom: mean_along(cells, Shape::Box_, Axis::Bottom),
        result: counted_result(count, verb, "box"@, noun),
    }
}

/// The outcome of a rule that needs a value to work with: `Empty` for none,
/// else `Okay`, with the note that counts the values.
pub open spec fn counted_result(count: nat, verb: Seq<char>, kind: Seq<char>, noun: Seq<char>) -> ResultView {
    if count == 0 {
        ResultView { flag: ReconciledFlag::Empty, notes: none_note(kind) }
    } else {
        ResultView { flag: ReconciledFlag::Okay, notes: count_note(verb, count, kind, noun) }
    }
}

/// The outcome of a rule that needs a value to work with.
fn result_for(count: usize, verb: &str, kind: &str, noun: &str) -> (r: ReconciledResult)
    ensures
        r@ == counted_result(count as nat, verb@, kind@, noun@),
{
    ReconciledResult {
        flag: if count == 0 {
            ReconciledFlag::Empty
        } else {
            ReconciledFlag::Okay
        },
        notes: note_for(verb, count, kind, noun),
    }
}

/// Reconciles boxes, with the verb and the noun of the notes as they are given.
pub fn boxes_with(fields: &Vec<&FlatField>, verb: &str, noun: &str) -> (r: ReconciledField)
    ensures
        r@ == box_cell(cells_view(fields@), verb@, noun@),
{
    ReconciledField::Box_ {
        left: mean_of(fields, Shape::Box_, Axis::Left),
        top: mean_of(fields, Shape::Box_, Axis::Top),
        right: mean_of(fields, Shape::Box_, Axis::Right),
        bottom: mean_of(fields, Shape::Box_, Axis::Bottom),
        result: result_for(count_shape(fields, Shape::Box_), verb, "box", noun),
    }
}

/// Reconciles the boxes of one subject in one column: the mean of each edge,
/// rounded to whole pixels; `Empty` where there is no box. The notes count
/// the boxes, in the words that the pluralizer gives for the count.
pub fn reconcile_boxes(fields: &Vec<&FlatField>) -> (r: ReconciledField)
    ensures
        exists|verb: Seq<char>, noun: Seq<char>| r@ == box_cell(cells_view(fields@), verb, noun),
{
    let count = count_shape(fields, Shape::Box_);
    let verb = counted_word("is", count);
    let noun = counted_word("record", count);
    boxes_with(fields, verb.as_str(), noun.as_str())
}

/// The reconciled point of the values: the mean of each coordinate over the
/// points among them, rounded to whole pixels.
pub open spec fn point_cell(cells: Seq<FieldView>, verb: Seq<char>, noun: Seq<char>) -> ReconciledView {
    ReconciledView::Point {
        x: mean_along(cells, Shape::Point, Axis::X),
        y: mean_along(cells, Shape::Point, Axis::Y),
        result: counted_result(count_of(cells, Shape::Point), verb, "point"@, noun),
    }
}

/// Reconciles points, with the verb and the noun of the notes as they are
/// given.
pub fn points_with(fields: &Vec<&FlatField>, verb: &str, noun: &str) -> (r: ReconciledField)
    ensures
        r@ == point_cell(cells_view(fields@), verb@, noun@),
{
    ReconciledField::Point {
        x: mean_of(fields, Shape::Point, Axis::X),
        y: mean_of(fields, Shape::Point, Axis::Y),
        result: result_for(count_shape(fields, Shape::Point), verb, "point", noun),
    }
}

/// Reconciles the points of one subject in one column: the mean of each
/// coordinate, rounded to whole pixels; `Empty` where there is no point.
pub fn reconcile_points(fields: &Vec<&FlatField>) -> (r: ReconciledField)
    ensures
        exists|verb: Seq<char>, noun: Seq<char>| r@ == point_cell(cells_view(fields@), verb, noun),
{
    let count = count_shape(fields, Shape::Point);
    let verb = counted_word("is", count);
    let noun = counted_word("record", count);
    points_with(fields, verb.as_str(), noun.as_str())
}

/// The text of a value that holds one: the joined text of a list, the value
/// of the other shapes that hold a string.
pub open spec fn text_of(value: FieldView) -> Option<Seq<char>> {
    match value {
        FieldView::List { value, .. } => Some(value),
        FieldView::NoOp { value } => Some(value),
        FieldView::Same { value } => Some(value),
        FieldView::Select { value } => Some(value),
        FieldView::Text { value } => Some(value),
        _ => None,
    }
}

/// The texts of the values of a shape, in their order.
pub open spec fn texts_of(cells: Seq<FieldView>, shape: Shape) -> Seq<Seq<char>>
    decreases cells.len(),
{
    if cells.len() == 0 {
        Seq::empty()
    } else if cells.last().shape() == shape && text_of(cells.last()) is Some {
        texts_of(cells.drop_last(), shape).push(text_of(cells.last()).unwrap())
    } else {
        texts_of(cells.drop_last(), shape)
    }
}

/// The text of a value that holds one.
fn field_text(value: &FlatField) -> (r: Option<&String>)
    ensures
        match r {
            Some(text) => text_of(value@) == Some(text@),
            None => text_of(value@) is None,
        },
{
    match value {
        FlatField::List { values: _, value } => Some(value),
        FlatField::NoOp { value } => Some(value),
        FlatField::Same { value } => Some(value),
        FlatField::Select { value } => Some(value),
        FlatField::Text { value } => Some(value),
        _ => None,
    }
}

/// The texts of the values of a shape, in their order.
fn collect_texts<'a>(fields: &Vec<&'a FlatField>, shape: Shape) -> (r: Vec<&'a String>)
    ensures
        texts_view(r@) == texts_of(cells_view(fields@), shape),
{
    let ghost cells = cells_view(fields@);
    let mut r: Vec<&'a String> = Vec::new();
    let mut i: usize = 0;
    assert(cells.take(0) =~= Seq::<FieldView>::empty());
    assert(texts_view(r@) =~= Seq::<Seq<char>>::empty());
    while i < fields.len()
        invariant
            i <= fields.len(),
            cells == cells_view(fields@),
            texts_view(r@) == texts_of(cells.take(i as int), shape),
        decreases fields.len() - i,
    {
        assert(cells.take(i + 1).drop_last() =~= cells.take(i as int));
        if fields[i].shape() == shape {
            match field_text(fields[i]) {
                Some(text) => {
                    let ghost before = texts_view(r@);
                    r.push(text);
                    assert(texts_view(r@) =~= before.push(text@));
                },
                None => {},
            }
        }
        i += 1;
    }
    assert(cells.take(fields.len() as int) =~= cells);
    r
}

/// Whether the strings stand in strictly ascending order.
pub open spec fn strictly_ascending(s: Seq<Seq<char>>) -> bool {
    forall|i: int, j: int| 0 <= i < j < s.len() ==> lex_lt(#[trigger] s[i], #[trigger] s[j])
}

/// Whether `d` holds the strings of `s`, each once, in ascending order.
pub open spec fn sorted_set_of(d: Seq<Seq<char>>, s: Seq<Seq<char>>) -> bool {
    &&& strictly_ascending(d)
    &&& forall|v: Seq<char>| d.contains(v) <==> s.contains(v)
}

/// The strings of `s`, each once, in ascending order.
pub open spec fn distinct_sorted(s: Seq<Seq<char>>) -> Seq<Seq<char>> {
    choose|d: Seq<Seq<char>>| sorted_set_of(d, s)
}

/// Two strictly ascending sequences that hold the same strings are the same
/// sequence.
pub proof fn lemma_strictly_ascending_unique(x: Seq<Seq<char>>, y: Seq<Seq<char>>)
    requires
        strictly_ascending(x),
        strictly_ascending(y),
        forall|v: Seq<char>| x.contains(v) <==> y.contains(v),
    ensures
        x == y,
    decreases x.len(),
{
    if x.len() == 0 {
        if y.len() > 0 {
            assert(y.contains(y[0]));
            assert(x.contains(y[0]));
        }
        assert(x =~= y);
    } else {
        let top = x.last();
        assert(x.contains(top));
        assert(y.contains(top));
        let at = choose|k: int| 0 <= k < y.len() && y[k] == top;
        // the last of each is the greatest of both
        assert(y.contains(y.last()));
        assert(x.contains(y.last()));
        let back = choose|k: int| 0 <= k < x.len() && x[k] == y.last();
        if at < y.len() - 1 {
            assert(lex_lt(y[at], y[y.len() - 1]));
            if back < x.len() - 1 {
                assert(lex_lt(x[back], x[x.len() - 1]));
                assert(top.take(0) =~= y.last().take(0));
                lemma_lex_antisymmetric(top, y.last(), 0);
            }
        }
        assert(y.last() == top);
        let xs = x.drop_last();
        let ys = y.drop_last();
        assert forall|v: Seq<char>| xs.contains(v) <==> ys.contains(v) by {
            if xs.contains(v) {
                let k = choose|k: int| 0 <= k < xs.len() && xs[k] == v;
                assert(lex_lt(x[k], x[x.len() - 1]));
                assert(x.contains(v));
                let m = choose|m: int| 0 <= m < y.len() && y[m] == v;
                assert(ys[m] == v);
            }
            if ys.contains(v) {
                let k = choose|k: int| 0 <= k < ys.len() && ys[k] == v;
                assert(lex_lt(y[k], y[y.len() - 1]));
                assert(y.contains(v));
                let m = choose|m: int| 0 <= m < x.len() && x[m] == v;
                assert(xs[m] == v);
            }
        }
        assert(strictly_ascending(xs)) by {
            assert forall|i: int, j: int| 0 <= i < j < xs.len() implies lex_lt(
                #[trigger] xs[i],
                #[trigger] xs[j],
            ) by {
                assert(lex_lt(x[i], x[j]));
            }
        }
        assert(strictly_ascending(ys)) by {
            assert forall|i: int, j: int| 0 <= i < j < ys.len() implies lex_lt(
                #[trigger] ys[i],
                #[trigger] ys[j],
            ) by {
                assert(lex_lt(y[i], y[j]));
            }
        }
        lemma_strictly_ascending_unique(xs, ys);
        assert(x =~= xs.push(top));
        assert(y =~= ys.push(top));
    }
}

/// The strings, each once, in ascending order.
fn sort_distinct(values: &Vec<&String>) -> (r: Vec<String>)
    ensures
        strings_view(r@) == distinct_sorted(texts_view(values@)),
{
    let ghost all = texts_view(values@);
    let mut r: Vec<String> = Vec::new();
    let mut i: usize = 0;
    while i < values.len()
        invariant
            i <= values.len(),
            all == texts_view(values@),
            strictly_ascending(strings_view(r@)),
            forall|v: Seq<char>| strings_view(r@).contains(v) <==> all.take(i as int).contains(v),
        decreases values.len() - i,
    {
        let ghost before = strings_view(r@);
        let ghost text = values@[i as int]@;
        let mut p: usize = 0;
        while p < r.len() && !str_le(values[i].as_str(), r[p].as_str())
            invariant
                p <= r.len(),
                before == strings_view(r@),
                text == values@[i as int]@,
                i < values.len(),
                forall|k: int| 0 <= k < p ==> lex_lt(#[trigger] before[k], text),
            decreases r.len() - p,
        {
            proof {
                lemma_lex_total(text, before[p as int], 0);
            }
            p += 1;
        }
        let known = p < r.len() && str_eq(r[p].as_str(), values[i].as_str());
        if !known {
            r.insert(p, values[i].clone());
        }
        proof {
            let after = strings_view(r@);
            let prev = all.take(i as int);
            let next = all.take(i + 1);
            assert(next =~= prev.push(text));
            if known {
                assert(after == before);
                assert(before[p as int] == text);
                assert forall|v: Seq<char>| after.contains(v) <==> next.contains(v) by {
                    if next.contains(v) {
                        let k = choose|k: int| 0 <= k < next.len() && next[k] == v;
                        if k < i {
                            assert(prev[k] == v);
                            assert(prev.contains(v));
                        } else {
                            assert(before.contains(text));
                        }
                    }
                    if after.contains(v) {
                        assert(prev.contains(v));
                        let k = choose|k: int| 0 <= k < prev.len() && prev[k] == v;
                        assert(next[k] == v);
                    }
                }
            } else {
                assert(after =~= before.insert(p as int, text));
                assert forall|a: int, b: int| 0 <= a < b < after.len() implies lex_lt(
                    #[trigger] after[a],
                    #[trigger] after[b],
                ) by {
                    if b < p {
                        assert(lex_lt(before[a], before[b]));
                    } else if b == p {
                        assert(lex_lt(before[a], text));
                    } else if a == p {
                        assert(lex_le(text, before[p as int]));
                        assert(lex_lt(text, before[p as int]));
                        if b - 1 > p {
                            assert(lex_lt(before[p as int], before[b - 1]));
                            lemma_lex_lt_le(text, before[p as int], before[b - 1]);
                        }
                    } else if a < p {
                        assert(lex_lt(before[a], before[b - 1]));
                    } else {
                        assert(lex_lt(before[a - 1], before[b - 1]));
                    }
                }
                assert forall|v: Seq<char>| after.contains(v) <==> next.contains(v) by {
                    if next.contains(v) {
                        let k = choose|k: int| 0 <= k < next.len() && next[k] == v;
                        if k < i {
                            assert(prev[k] == v);
                            assert(prev.contains(v));
                            assert(before.contains(v));
                            let m = choose|m: int| 0 <= m < before.len() && before[m] == v;
                            if m < p {
                                assert(after[m] == v);
                            } else {
                                assert(after[m + 1] == v);
                            }
                        } else {
                            assert(after[p as int] == v);
                        }
                    }
                    if after.contains(v) {
                        let m = choose|m: int| 0 <= m < after.len() && after[m] == v;
                        if m == p {
                            assert(next[i as int] == v);
                        } else {
                            if m < p {
                                assert(before[m] == v);
                            } else {
                                assert(before[m - 1] == v);
                            }
                            assert(before.contains(v));
                            assert(prev.contains(v));
                            let k = choose|k: int| 0 <= k < prev.len() && prev[k] == v;
                            assert(next[k] == v);
                        }
                    }
                }
            }
        }
        i += 1;
    }
    proof {
        assert(all.take(values.len() as int) =~= all);
        assert(sorted_set_of(strings_view(r@), all));
        let d = distinct_sorted(all);
        assert(sorted_set_of(d, all));
        lemma_strictly_ascending_unique(strings_view(r@), d);
    }
    r
}

/// Whether all the strings are the same.
pub open spec fn all_same(values: Seq<Seq<char>>) -> bool {
    forall|i: int| 0 <= i < values.len() ==> #[trigger] values[i] == values[0]
}

/// The reconciled value of a column that holds the same for every
/// classification of a subject: the value that they share, with `Okay`;
/// `Empty` where there is none; `Error` where they do not agree, with a note
/// that lists the values in ascending order.
pub open spec fn same_cell(cells: Seq<FieldView>) -> ReconciledView {
    let values = texts_of(cells, Shape::Same);
    if values.len() == 0 {
        ReconciledView::Same {
            value: Seq::empty(),
            result: ResultView { flag: ReconciledFlag::Empty, notes: "There are no records"@ },
        }
    } else if all_same(values) {
        ReconciledView::Same {
            value: values[0],
            result: ResultView { flag: ReconciledFlag::Okay, notes: Seq::empty() },
        }
    } else {
        ReconciledView::Same {
            value: Seq::empty(),
            result: ResultView {
                flag: ReconciledFlag::Error,
                notes: "Not all values are the same: "@ + joined(distinct_sorted(values), ", "@),
            },
        }
    }
}

/// Whether all the strings are the same.
fn check_all_same(values: &Vec<&String>) -> (r: bool)
    ensures
        r == all_same(texts_view(values@)),
{
    let mut i: usize = 1;
    while i < values.len()
        invariant
            1 <= i,
            forall|k: int| 0 <= k < i && k < values.len() ==> #[trigger] texts_view(values@)[k]
                == texts_view(values@)[0],
        decreases values.len() - i,
    {
        if !str_eq(values[i].as_str(), values[0].as_str()) {
            assert(texts_view(values@)[i as int] != texts_view(values@)[0]);
            return false;
        }
        i += 1;
    }
    true
}

/// Reconciles the values of one subject in a column that holds the same for
/// every classification of the subject.
pub fn reconcile_same(fields: &Vec<&FlatField>) -> (r: ReconciledField)
    ensures
        r@ == same_cell(cells_view(fields@)),
{
    let values = collect_texts(fields, Shape::Same);
    if values.len() == 0 {
        ReconciledField::Same {
            value: String::new(),
            result: ReconciledResult {
                flag: ReconciledFlag::Empty,
                notes: String::from_str("There are no records"),
            },
        }
    } else if check_all_same(&values) {
        ReconciledField::Same {
            value: values[0].clone(),
            result: ReconciledResult { flag: ReconciledFlag::Okay, notes: String::new() },
        }
    } else {
        let distinct = sort_distinct(&values);
        let mut notes = String::from_str("Not all values are the same: ");
        notes.append(join(&distinct, ", ").as_str());
        ReconciledField::Same {
            value: String::new(),
            result: ReconciledResult { flag: ReconciledFlag::Error, notes },
        }
    }
}

/// The reconciled value of an administrative column, which is not voted on:
/// the first value that a classification of the subject holds, with `Okay`;
/// `Empty` where none holds one.
pub open spec fn noop_cell(cells: Seq<FieldView>) -> ReconciledView {
    let values = texts_of(cells, Shape::NoOp);
    if values.len() == 0 {
        ReconciledView::NoOp {
            value: Seq::empty(),
            result: ResultView { flag: ReconciledFlag::Empty, notes: "There are no records"@ },
        }
    } else {
        ReconciledView::NoOp {
            value: values[0],
            result: ResultView { flag: ReconciledFlag::Okay, notes: Seq::empty() },
        }
    }
}

/// Reconciles the values of one subject in an administrative column.
pub fn reconcile_noop(fields: &Vec<&FlatField>) -> (r: ReconciledField)
    ensures
        r@ == noop_cell(cells_view(fields@)),
{
    let values = collect_texts(fields, Shape::NoOp);
    if values.len() == 0 {
        ReconciledField::NoOp {
            value: String::new(),
            result: ReconciledResult {
                flag: ReconciledFlag::Empty,
                notes: String::from_str("There are no records"),
            },
        }
    } else {
        ReconciledField::NoOp {
            value: values[0].clone(),
            result: ReconciledResult { flag: ReconciledFlag::Okay, notes: String::new() },
        }
    }
}

/// The answers among the texts: those that are not blank, in their order.
pub open spec fn answers_of(texts: Seq<Seq<char>>) -> Seq<Seq<char>>
    decreases texts.len(),
{
    if texts.len() == 0 {
        Seq::empty()
    } else if texts.last().len() > 0 {
        answers_of(texts.drop_last()).push(texts.last())
    } else {
        answers_of(texts.drop_last())
    }
}

/// How often an answer was given.
pub open spec fn occurrences(answers: Seq<Seq<char>>, answer: Seq<char>) -> nat
    decreases answers.len(),
{
    if answers.len() == 0 {
        0
    } else {
        occurrences(answers.drop_last(), answer) + if answers.last() == answer {
            1nat
        } else {
            0nat
        }
    }
}

/// Whether the answer at `i` was given most often and, of the answers given
/// as often, came first.
pub open spec fn is_leader(answers: Seq<Seq<char>>, i: int) -> bool {
    &&& 0 <= i < answers.len()
    &&& forall|j: int|
        0 <= j < answers.len() ==> occurrences(answers, #[trigger] answers[j]) <= occurrences(
            answers,
            answers[i],
        )
    &&& forall|j: int|
        0 <= j < i ==> occurrences(answers, #[trigger] answers[j]) < occurrences(
            answers,
            answers[i],
        )
}

/// Where the answer stands that was given most often and came first
/// (arbitrary where there is no answer).
pub open spec fn leader(answers: Seq<Seq<char>>) -> int {
    choose|i: int| is_leader(answers, i)
}

/// Whether the answer at `i` was given more often than each other answer.
pub open spec fn alone_on_top(answers: Seq<Seq<char>>, i: int) -> bool {
    forall|j: int|
        0 <= j < answers.len() && #[trigger] answers[j] != answers[i] ==> occurrences(
            answers,
            answers[j],
        ) < occurrences(answers, answers[i])
}

/// The answers among the first `count` that were given as often as the
/// leader, each once, in the order in which they first came.
pub open spec fn tied_first(answers: Seq<Seq<char>>, count: nat) -> Seq<Seq<char>>
    decreases count,
{
    if count == 0 || count > answers.len() {
        Seq::empty()
    } else {
        let before = tied_first(answers, (count - 1) as nat);
        let answer = answers[count - 1];
        if occurrences(answers, answer) == occurrences(answers, answers[leader(answers)])
            && !answers.take(count - 1).contains(answer) {
            before.push(answer)
        } else {
            before
        }
    }
}

/// The outcome of a vote: the flag, the value that is taken, and the notes.
pub struct VoteView {
    pub flag: ReconciledFlag,
    pub value: Seq<char>,
    pub notes: Seq<char>,
}

/// The vote of the respondents on their answers. No answer: `AllBlank`. One
/// answer: `OnlyOne`, that answer. Every respondent with the same answer:
/// `Unanimous`. One answer given more often than each other: `Majority`,
/// that answer. Else `NoMatch`: the first of the answers given most often,
/// and the notes list them all.
pub open spec fn vote(answers: Seq<Seq<char>>, respondents: nat) -> VoteView {
    if answers.len() == 0 {
        VoteView {
            flag: ReconciledFlag::AllBlank,
            value: Seq::empty(),
            notes: "All "@ + decimal(respondents as int) + " blank"@,
        }
    } else if answers.len() == 1 {
        VoteView {
            flag: ReconciledFlag::OnlyOne,
            value: answers[0],
            notes: "Only 1 answer among "@ + decimal(respondents as int),
        }
    } else {
        let top = leader(answers);
        let count = occurrences(answers, answers[top]);
        if count == respondents {
            VoteView {
                flag: ReconciledFlag::Unanimous,
                value: answers[top],
                notes: "Unanimous match, "@ + decimal(count as int) + " of "@ + decimal(
                    respondents as int,
                ),
            }
        } else if alone_on_top(answers, top) {
            VoteView {
                flag: ReconciledFlag::Majority,
                value: answers[top],
                notes: "Majority match, "@ + decimal(count as int) + " of "@ + decimal(
                    respondents as int,
                ),
            }
        } else {
            VoteView {
                flag: ReconciledFlag::NoMatch,
                value: answers[top],
                notes: "No match among "@ + decimal(respondents as int) + ", tied: "@ + joined(
                    tied_first(answers, answers.len()),
                    ", "@,
                ),
            }
        }
    }
}

/// The leader is the only answer that `is_leader` admits.
pub proof fn lemma_leader_unique(answers: Seq<Seq<char>>, i: int)
    requires
        is_leader(answers, i),
    ensures
        leader(answers) == i,
{
    let k = leader(answers);
    assert(is_leader(answers, k));
    if k < i {
        assert(occurrences(answers, answers[k]) < occurrences(answers, answers[i]));
        assert(occurrences(answers, answers[i]) <= occurrences(answers, answers[k]));
    } else if i < k {
        assert(occurrences(answers, answers[i]) < occurrences(answers, answers[k]));
        assert(occurrences(answers, answers[k]) <= occurrences(answers, answers[i]));
    }
}

/// The answers among the texts.
fn collect_answers<'a>(texts: &Vec<&'a String>) -> (r: Vec<&'a String>)
    ensures
        texts_view(r@) == answers_of(texts_view(texts@)),
{
    let ghost all = texts_view(texts@);
    let mut r: Vec<&'a String> = Vec::new();
    let mut i: usize = 0;
    assert(all.take(0) =~= Seq::<Seq<char>>::empty());
    assert(texts_view(r@) =~= Seq::<Seq<char>>::empty());
    while i < texts.len()
        invariant
            i <= texts.len(),
            all == texts_view(texts@),
            texts_view(r@) == answers_of(all.take(i as int)),
        decreases texts.len() - i,
    {
        assert(all.take(i + 1).drop_last() =~= all.take(i as int));
        if !texts[i].as_str().is_empty() {
            let ghost before = texts_view(r@);
            r.push(texts[i]);
            assert(texts_view(r@) =~= before.push(texts@[i as int]@));
        }
        i += 1;
    }
    assert(all.take(texts.len() as int) =~= all);
    r
}

/// How often the answer at `at` was given.
fn count_answer(answers: &Vec<&String>, at: usize) -> (count: usize)
    requires
        at < answers.len(),
    ensures
        count == occurrences(texts_view(answers@), texts_view(answers@)[at as int]),
        count <= answers.len(),
{
    let ghost all = texts_view(answers@);
    let mut count: usize = 0;
    let mut i: usize = 0;
    assert(all.take(0) =~= Seq::<Seq<char>>::empty());
    while i < answers.len()
        invariant
            i <= answers.len(),
            at < answers.len(),
            all == texts_view(answers@),
            count <= i,
            count == occurrences(all.take(i as int), all[at as int]),
        decreases answers.len() - i,
    {
        assert(all.take(i + 1).drop_last() =~= all.take(i as int));
        if str_eq(answers[i].as_str(), answers[at].as_str()) {
            count += 1;
        }
        i += 1;
    }
    assert(all.take(answers.len() as int) =~= all);
    count
}

/// How often each answer was given.
fn count_answers(answers: &Vec<&String>) -> (counts: Vec<usize>)
    ensures
        counts@.len() == answers@.len(),
        forall|i: int|
            0 <= i < counts@.len() ==> #[trigger] counts@[i] == occurrences(
                texts_view(answers@),
                texts_view(answers@)[i],
            ),
{
    let mut counts: Vec<usize> = Vec::new();
    let mut i: usize = 0;
    while i < answers.len()
        invariant
            i <= answers.len(),
            counts@.len() == i,
            forall|k: int|
                0 <= k < i ==> #[trigger] counts@[k] == occurrences(
                    texts_view(answers@),
                    texts_view(answers@)[k],
                ),
        decreases answers.len() - i,
    {
        counts.push(count_answer(answers, i));
        i += 1;
    }
    counts
}

/// Where the answer stands that was given most often and came first.
fn find_leader(answers: &Vec<&String>, counts: &Vec<usize>) -> (top: usize)
    requires
        answers@.len() > 0,
        counts@.len() == answers@.len(),
        forall|i: int|
            0 <= i < counts@.len() ==> #[trigger] counts@[i] == occurrences(
                texts_view(answers@),
                texts_view(answers@)[i],
            ),
    ensures
        top == leader(texts_view(answers@)),
        is_leader(texts_view(answers@), top as int),
{
    let ghost all = texts_view(answers@);
    let mut top: usize = 0;
    let mut i: usize = 1;
    while i < counts.len()
        invariant
            1 <= i <= counts.len(),
            top < i,
            all == texts_view(answers@),
            counts@.len() == answers@.len(),
            forall|k: int|
                0 <= k < counts@.len() ==> #[trigger] counts@[k] == occurrences(all, all[k]),
            forall|k: int| 0 <= k < i ==> counts@[k] <= counts@[top as int],
            forall|k: int| 0 <= k < top ==> counts@[k] < counts@[top as int],
        decreases counts.len() - i,
    {
        if counts[i] > counts[top] {
            top = i;
        }
        i += 1;
    }
    proof {
        assert forall|j: int| 0 <= j < all.len() implies occurrences(all, #[trigger] all[j])
            <= occurrences(all, all[top as int]) by {
            assert(counts@[j] <= counts@[top as int]);
        }
        assert forall|j: int| 0 <= j < top implies occurrences(all, #[trigger] all[j])
            < occurrences(all, all[top as int]) by {
            assert(counts@[j] < counts@[top as int]);
        }
        lemma_leader_unique(all, top as int);
    }
    top
}

/// Whether the answer at `top` was given more often than each other answer.
fn check_alone(answers: &Vec<&String>, counts: &Vec<usize>, top: usize) -> (r: bool)
    requires
        top < answers@.len(),
        counts@.len() == answers@.len(),
        forall|i: int|
            0 <= i < counts@.len() ==> #[trigger] counts@[i] == occurrences(
                texts_view(answers@),
                texts_view(answers@)[i],
            ),
    ensures
        r == alone_on_top(texts_view(answers@), top as int),
{
    let ghost all = texts_view(answers@);
    let mut i: usize = 0;
    while i < answers.len()
        invariant
            i <= answers.len(),
            top < answers@.len(),
            all == texts_view(answers@),
            counts@.len() == answers@.len(),
            forall|k: int|
                0 <= k < counts@.len() ==> #[trigger] counts@[k] == occurrences(all, all[k]),
            forall|j: int|
                0 <= j < i && #[trigger] all[j] != all[top as int] ==> occurrences(all, all[j])
                    < occurrences(all, all[top as int]),
        decreases answers.len() - i,
    {
        if !str_eq(answers[i].as_str(), answers[top].as_str()) && counts[i] >= counts[top] {
            assert(all[i as int] != all[top as int]);
            assert(counts@[i as int] == occurrences(all, all[i as int]));
            assert(counts@[top as int] == occurrences(all, all[top as int]));
            return false;
        }
        assert(counts@[i as int] == occurrences(all, all[i as int]));
        assert(counts@[top as int] == occurrences(all, all[top as int]));
        i += 1;
    }
    true
}

/// Whether the answer at `at` was given before.
fn seen_before(answers: &Vec<&String>, at: usize) -> (r: bool)
    requires
        at < answers@.len(),
    ensures
        r == texts_view(answers@).take(at as int).contains(texts_view(answers@)[at as int]),
{
    let ghost all = texts_view(answers@);
    let mut i: usize = 0;
    while i < at
        invariant
            i <= at < answers@.len(),
            all == texts_view(answers@),
            forall|k: int| 0 <= k < i ==> #[trigger] all[k] != all[at as int],
        decreases at - i,
    {
        if str_eq(answers[i].as_str(), answers[at].as_str()) {
            assert(all.take(at as int)[i as int] == all[at as int]);
            return true;
        }
        i += 1;
    }
    assert forall|k: int| 0 <= k < all.take(at as int).len() implies all.take(at as int)[k]
        != all[at as int] by {
        assert(all[k] != all[at as int]);
    }
    false
}

/// The answers that were given as often as the leader, each once, in the
/// order in which they first came.
fn collect_tied(answers: &Vec<&String>, counts: &Vec<usize>, top: usize) -> (r: Vec<String>)
    requires
        top == leader(texts_view(answers@)),
        top < answers@.len(),
        counts@.len() == answers@.len(),
        forall|i: int|
            0 <= i < counts@.len() ==> #[trigger] counts@[i] == occurrences(
                texts_view(answers@),
                texts_view(answers@)[i],
            ),
    ensures
        strings_view(r@) == tied_first(texts_view(answers@), answers@.len()),
{
    let ghost all = texts_view(answers@);
    let mut r: Vec<String> = Vec::new();
    let mut i: usize = 0;
    assert(strings_view(r@) =~= tied_first(all, 0));
    while i < answers.len()
        invariant
            i <= answers.len(),
            top == leader(all),
            top < answers@.len(),
            all == texts_view(answers@),
            counts@.len() == answers@.len(),
            forall|k: int|
                0 <= k < counts@.len() ==> #[trigger] counts@[k] == occurrences(all, all[k]),
            strings_view(r@) == tied_first(all, i as nat),
        decreases answers.len() - i,
    {
        assert(counts@[i as int] == occurrences(all, all[i as int]));
        assert(counts@[top as int] == occurrences(all, all[top as int]));
        if counts[i] == counts[top] && !seen_before(answers, i) {
            let ghost before = strings_view(r@);
            r.push(answers[i].clone());
            assert(strings_view(r@) =~= before.push(all[i as int]));
        }
        i += 1;
    }
    r
}

/// The notes of a match: `Majority match, 2 of 3`.
fn match_notes(kind: &str, count: usize, respondents: usize) -> (r: String)
    ensures
        r@ == kind@ + decimal(count as int) + " of "@ + decimal(respondents as int),
{
    let mut r = String::from_str(kind);
    r.append(int_to_string(count as i128).as_str());
    r.append(" of ");
    r.append(int_to_string(respondents as i128).as_str());
    r
}

/// Holds the vote of the respondents on the texts that they gave.
fn hold_vote(texts: &Vec<&String>, respondents: usize) -> (r: (ReconciledFlag, String, String))
    ensures
        vote(answers_of(texts_view(texts@)), respondents as nat) == (VoteView {
            flag: r.0,
            value: r.1@,
            notes: r.2@,
        }),
{
    let answers = collect_answers(texts);
    vote_on(&answers, respondents)
}

/// The vote with near matches merged. Where the vote on the answers as they
/// are finds no match, each answer is merged into the first earlier answer
/// that lies within the distance of it and is merged into none itself; if
/// the vote on the merged answers is unanimous or finds a majority, that is
/// the outcome, flagged `Fuzzy`. Else the outcome is that of the vote on the
/// answers as they are.
pub open spec fn fuzzy_vote(answers: Seq<Seq<char>>, respondents: nat, distance: nat) -> VoteView {
    let exact = vote(answers, respondents);
    let loose = vote(merged(answers, distance), respondents);
    if exact.flag == ReconciledFlag::NoMatch && (loose.flag == ReconciledFlag::Unanimous
        || loose.flag == ReconciledFlag::Majority) {
        VoteView { flag: ReconciledFlag::Fuzzy, value: loose.value, notes: "Fuzzy "@ + loose.notes }
    } else {
        exact
    }
}

/// Within the distance zero the vote is the vote on the answers as they are.
pub proof fn lemma_fuzzy_exact(answers: Seq<Seq<char>>, respondents: nat)
    ensures
        fuzzy_vote(answers, respondents, 0) == vote(answers, respondents),
{
    lemma_merged_exact(answers);
}

/// Holds the vote of the respondents on the texts that they gave, near
/// matches merged.
fn hold_fuzzy_vote(texts: &Vec<&String>, respondents: usize, max_distance: usize) -> (r: (
    ReconciledFlag,
    String,
    String,
))
    ensures
        fuzzy_vote(answers_of(texts_view(texts@)), respondents as nat, max_distance as nat) == (
        VoteView { flag: r.0, value: r.1@, notes: r.2@ }),
{
    let answers = collect_answers(texts);
    let exact = vote_on(&answers, respondents);
    match exact.0 {
        ReconciledFlag::NoMatch => {
            let loose = vote_on(&merge_near(&answers, max_distance), respondents);
            match loose.0 {
                ReconciledFlag::Unanimous | ReconciledFlag::Majority => {
                    let mut notes = String::from_str("Fuzzy ");
                    notes.append(loose.2.as_str());
                    (ReconciledFlag::Fuzzy, loose.1, notes)
                },
                _ => exact,
            }
        },
        _ => exact,
    }
}

/// Holds the vote of the respondents on their answers.
fn vote_on(answers: &Vec<&String>, respondents: usize) -> (r: (ReconciledFlag, String, String))
    ensures
        vote(texts_view(answers@), respondents as nat) == (VoteView {
            flag: r.0,
            value: r.1@,
            notes: r.2@,
        }),
{
    if answers.len() == 0 {
        let mut notes = String::from_str("All ");
        notes.append(int_to_string(respondents as i128).as_str());
        notes.append(" blank");
        return (ReconciledFlag::AllBlank, String::new(), notes);
    }
    if answers.len() == 1 {
        let mut notes = String::from_str("Only 1 answer among ");
        notes.append(int_to_string(respondents as i128).as_str());
        return (ReconciledFlag::OnlyOne, answers[0].clone(), notes);
    }
    let counts = count_answers(answers);
    let top = find_leader(answers, &counts);
    let count = counts[top];
    if count == respondents {
        (
            ReconciledFlag::Unanimous,
            answers[top].clone(),
            match_notes("Unanimous match, ", count, respondents),
        )
    } else if check_alone(answers, &counts, top) {
        (
            ReconciledFlag::Majority,
            answers[top].clone(),
            match_notes("Majority match, ", count, respondents),
        )
    } else {
        let tied = collect_tied(answers, &counts, top);
        let mut notes = String::from_str("No match among ");
        notes.append(int_to_string(respondents as i128).as_str());
        notes.append(", tied: ");
        notes.append(join(&tied, ", ").as_str());
        (ReconciledFlag::NoMatch, answers[top].clone(), notes)
    }
}

/// The reconciled value of a column of choices: the vote of all the
/// classifications of the subject on the choices that they made.
pub open spec fn select_cell(cells: Seq<FieldView>) -> ReconciledView {
    let outcome = vote(answers_of(texts_of(cells, Shape::Select)), cells.len());
    ReconciledView::Select {
        value: outcome.value,
        result: ResultView { flag: outcome.flag, notes: outcome.notes },
    }
}

/// Reconciles the choices of one subject in one column by vote. A
/// classification without a choice counts as a respondent that left it blank.
pub fn reconcile_select(fields: &Vec<&FlatField>) -> (r: ReconciledField)
    ensures
        r@ == select_cell(cells_view(fields@)),
{
    let texts = collect_texts(fields, Shape::Select);
    let (flag, value, notes) = hold_vote(&texts, fields.len());
    ReconciledField::Select { value, result: ReconciledResult { flag, notes } }
}

/// The reconciled value of a column of free text: the vote of all the
/// classifications of the subject on the texts that they gave, texts within
/// the distance of each other merged where the texts as they are find no
/// match.
pub open spec fn text_cell(cells: Seq<FieldView>, distance: nat) -> ReconciledView {
    let outcome = fuzzy_vote(answers_of(texts_of(cells, Shape::Text)), cells.len(), distance);
    ReconciledView::Text {
        value: outcome.value,
        result: ResultView { flag: outcome.flag, notes: outcome.notes },
    }
}

/// Reconciles the free texts of one subject in one column by vote, texts
/// within `max_distance` edits of each other merged where the texts as they
/// are find no match. A distance of zero compares the texts as they are.
pub fn reconcile_text(fields: &Vec<&FlatField>, max_distance: usize) -> (r: ReconciledField)
    ensures
        r@ == text_cell(cells_view(fields@), max_distance as nat),
{
    let texts = collect_texts(fields, Shape::Text);
    let (flag, value, notes) = hold_fuzzy_vote(&texts, fields.len(), max_distance);
    ReconciledField::Text { value, result: ReconciledResult { flag, notes } }
}

/// The reconciled value of a column of lists: the vote of all the
/// classifications of the subject on their lists, each list taken as its
/// sorted values joined into one text.
pub open spec fn list_cell(cells: Seq<FieldView>) -> ReconciledView {
    let outcome = vote(answers_of(texts_of(cells, Shape::List)), cells.len());
    ReconciledView::List {
        value: outcome.value,
        result: ResultView { flag: outcome.flag, notes: outcome.notes },
    }
}

/// Reconciles the lists of one subject in one column by vote.
pub fn reconcile_list(fields: &Vec<&FlatField>) -> (r: ReconciledField)
    ensures
        r@ == list_cell(cells_view(fields@)),
{
    let texts = collect_texts(fields, Shape::List);
    let (flag, value, notes) = hold_vote(&texts, fields.len());
    ReconciledField::List { value, result: ReconciledResult { flag, notes } }
}

/// The length of a line in thousandths of a pixel, rounded down; zero for a
/// value that is no line.
pub open spec fn line_length(value: FieldView) -> nat {
    match value {
        FieldView::Length { x1, y1, x2, y2 } => root(
            (((x1 - x2) * (x1 - x2) + (y1 - y2) * (y1 - y2)) * 1_000_000) as nat,
        ),
        _ => 0,
    }
}

/// The sum of the lengths of the lines among the values.
pub open spec fn length_sum(cells: Seq<FieldView>) -> nat
    decreases cells.len(),
{
    if cells.len() == 0 {
        0
    } else {
        length_sum(cells.drop_last()) + line_length(cells.last())
    }
}

/// The mean length of the lines among the values in thousandths of a pixel,
/// rounded down; zero where there is no line.
pub open spec fn mean_length(cells: Seq<FieldView>) -> nat {
    let count = count_of(cells, Shape::Length);
    if count == 0 {
        0
    } else {
        length_sum(cells) / count
    }
}

/// The factor of a ruler: the length that its label names, by the mean
/// length of its lines in pixels, in billionths of the unit per pixel and
/// rounded down; zero where the lines have no length.
pub open spec fn ruler_factor(scale_micro: int, pixel_length: nat) -> nat {
    if pixel_length == 0 {
        0
    } else {
        (scale_micro * 1_000_000 / (pixel_length as int)) as nat
    }
}

/// The reconciled length of the values under a label: the mean of each end
/// point over the lines among them, rounded to whole pixels, and their mean
/// length in pixels. A label that names a scale makes the column a ruler,
/// with the unit of the scale and the factor from pixels to it; any other
/// column has no unit. The length in units is left at zero, to be filled in
/// from a ruler of the same subject. The flag is `Okay`, or `Empty` where no
/// value is a line; the notes count the lines.
pub open spec fn length_cell(
    cells: Seq<FieldView>,
    label: Seq<char>,
    verb: Seq<char>,
    noun: Seq<char>,
) -> ReconciledView {
    let result = counted_result(count_of(cells, Shape::Length), verb, "length"@, noun);
    match scale_of(label) {
        Some(scale) => ReconciledView::RulerLength {
            x1: mean_along(cells, Shape::Length, Axis::X1),
            y1: mean_along(cells, Shape::Length, Axis::Y1),
            x2: mean_along(cells, Shape::Length, Axis::X2),
            y2: mean_along(cells, Shape::Length, Axis::Y2),
            length: 0,
            pixel_length: mean_length(cells),
            factor: ruler_factor(bounded_micro(scale.number).unwrap(), mean_length(cells)),
            units: scale.units,
            result,
        },
        None => ReconciledView::Length {
            x1: mean_along(cells, Shape::Length, Axis::X1),
            y1: mean_along(cells, Shape::Length, Axis::Y1),
            x2: mean_along(cells, Shape::Length, Axis::X2),
            y2: mean_along(cells, Shape::Length, Axis::Y2),
            length: 0,
            pixel_length: mean_length(cells),
            units: Seq::empty(),
            result,
        },
    }
}

/// The length of a line in thousandths of a pixel, rounded down.
fn length_of(value: &FlatField) -> (r: u64)
    ensures
        r == line_length(value@),
        r < 0x1000_0000_0000,
{
    match value {
        FlatField::Length { x1, y1, x2, y2 } => {
            let dx: i64 = *x1 as i64 - *x2 as i64;
            let dy: i64 = *y1 as i64 - *y2 as i64;
            assert(0 <= dx * dx <= 0x1_0000_0000_0000_0000) by (nonlinear_arith)
                requires
                    -0x1_0000_0000 <= dx <= 0x1_0000_0000,
            ;
            assert(0 <= dy * dy <= 0x1_0000_0000_0000_0000) by (nonlinear_arith)
                requires
                    -0x1_0000_0000 <= dy <= 0x1_0000_0000,
            ;
            let squared: u128 = (dx as i128 * dx as i128 + dy as i128 * dy as i128) as u128;
            let scaled: u128 = squared * 1_000_000;
            let length = isqrt(scaled);
            assert(length < 0x1000_0000_0000) by (nonlinear_arith)
                requires
                    length * length <= scaled,
                    scaled <= 0x2_0000_0000_0000_0000 * 1_000_000,
            ;
            length
        },
        _ => 0,
    }
}

/// The mean length of the lines among the values.
fn mean_length_of(fields: &Vec<&FlatField>) -> (r: u64)
    ensures
        r == mean_length(cells_view(fields@)),
        r < 0x1000_0000_0000,
{
    let ghost cells = cells_view(fields@);
    let mut sum: u128 = 0;
    let mut count: usize = 0;
    let mut i: usize = 0;
    assert(cells.take(0) =~= Seq::<FieldView>::empty());
    while i < fields.len()
        invariant
            i <= fields.len(),
            cells == cells_view(fields@),
            count <= i,
            count == count_of(cells.take(i as int), Shape::Length),
            sum == length_sum(cells.take(i as int)),
            sum <= count * 0xfff_ffff_ffff,
        decreases fields.len() - i,
    {
        assert(cells.take(i + 1).drop_last() =~= cells.take(i as int));
        if fields[i].shape() == Shape::Length {
            let length = length_of(fields[i]);
            assert((count + 1) * 0xfff_ffff_ffff == count * 0xfff_ffff_ffff + 0xfff_ffff_ffff)
                by (nonlinear_arith);
            assert(count * 0xfff_ffff_ffff <= 0xffff_ffff_ffff_ffff * 0xfff_ffff_ffff)
                by (nonlinear_arith)
                requires
                    count <= 0xffff_ffff_ffff_ffff,
            ;
            sum = sum + length as u128;
            count += 1;
        }
        i += 1;
    }
    assert(cells.take(fields.len() as int) =~= cells);
    if count == 0 {
        0
    } else {
        let mean = sum / (count as u128);
        assert(mean <= 0xfff_ffff_ffff) by (nonlinear_arith)
            requires
                mean == sum / (count as u128),
                sum <= count * 0xfff_ffff_ffff,
                count > 0,
        ;
        mean as u64
    }
}

/// Reconciles lengths, with the verb and the noun of the notes as they are
/// given.
pub fn lengths_with(fields: &Vec<&FlatField>, label: &str, verb: &str, noun: &str) -> (r:
    ReconciledField)
    ensures
        r@ == length_cell(cells_view(fields@), label@, verb@, noun@),
{
    let x1 = mean_of(fields, Shape::Length, Axis::X1);
    let y1 = mean_of(fields, Shape::Length, Axis::Y1);
    let x2 = mean_of(fields, Shape::Length, Axis::X2);
    let y2 = mean_of(fields, Shape::Length, Axis::Y2);
    let pixel_length = mean_length_of(fields);
    let result = result_for(count_shape(fields, Shape::Length), verb, "length", noun);
    match detect_scale(label) {
        Some(scale) => {
            let factor: u128 = if pixel_length == 0 {
                0
            } else {
                scale.micro as u128 * 1_000_000 / (pixel_length as u128)
            };
            ReconciledField::RulerLength {
                x1,
                y1,
                x2,
                y2,
                length: 0,
                pixel_length,
                factor,
                units: scale.units,
                result,
            }
        },
        None => ReconciledField::Length {
            x1,
            y1,
            x2,
            y2,
            length: 0,
            pixel_length,
            units: String::new(),
            result,
        },
    }
}

/// Reconciles the lines of one subject in the column `label`: the mean of
/// their end points and of their lengths; a ruler where the label names a
/// scale. `Empty` where there is no line.
pub fn reconcile_lengths(fields: &Vec<&FlatField>, label: &str) -> (r: ReconciledField)
    ensures
        exists|verb: Seq<char>, noun: Seq<char>|
            r@ == length_cell(cells_view(fields@), label@, verb, noun),
{
    let count = count_shape(fields, Shape::Length);
    let verb = counted_word("is", count);
    let noun = counted_word("record", count);
    lengths_with(fields, label, verb.as_str(), noun.as_str())
}

/// The rounded mean is the whole number nearest to the quotient: twice the
/// sum and twice the mean times the count differ by no more than the count.
pub proof fn lemma_mean_nearest(sum: int, count: nat)
    requires
        count > 0,
    ensures
        -(count as int) <= 2 * count * mean(sum, count) - 2 * sum <= count,
{
    let c = count as int;
    if sum >= 0 {
        let q = (2 * sum + c) / (2 * c);
        assert(2 * c * q <= 2 * sum + c < 2 * c * q + 2 * c) by (nonlinear_arith)
            requires
                c > 0,
                q == (2 * sum + c) / (2 * c),
        ;
    } else {
        let q = (-2 * sum + c) / (2 * c);
        assert(2 * c * q <= -2 * sum + c < 2 * c * q + 2 * c) by (nonlinear_arith)
            requires
                c > 0,
                q == (-2 * sum + c) / (2 * c),
        ;
        assert(2 * c * (-q) == -(2 * c * q)) by (nonlinear_arith);
    }
}

/// Where every value is a box, every value counts: the reconciled box is
/// `Okay`, and each of its edges is the sum of that edge over all the values,
/// by their number, rounded to the nearest whole pixel.
pub proof fn lemma_boxes_mean(cells: Seq<FieldView>, verb: Seq<char>, noun: Seq<char>)
    requires
        cells.len() > 0,
        forall|i: int| 0 <= i < cells.len() ==> (#[trigger] cells[i]) is Box_,
    ensures
        count_of(cells, Shape::Box_) == cells.len(),
        box_cell(cells, verb, noun) == (ReconciledView::Box_ {
            left: mean(sum_along(cells, Axis::Left), cells.len()),
            top: mean(sum_along(cells, Axis::Top), cells.len()),
            right: mean(sum_along(cells, Axis::Right), cells.len()),
            bottom: mean(sum_along(cells, Axis::Bottom), cells.len()),
            result: ResultView {
                flag: ReconciledFlag::Okay,
                notes: count_note(verb, cells.len(), "box"@, noun),
            },
        }),
{
    lemma_count_all(cells, Shape::Box_);
}

/// Values that all have one shape are all counted for that shape.
pub proof fn lemma_count_all(cells: Seq<FieldView>, shape: Shape)
    requires
        forall|i: int| 0 <= i < cells.len() ==> (#[trigger] cells[i]).shape() == shape,
    ensures
        count_of(cells, shape) == cells.len(),
    decreases cells.len(),
{
    if cells.len() > 0 {
        assert forall|i: int| 0 <= i < cells.drop_last().len() implies (
        #[trigger] cells.drop_last()[i]).shape() == shape by {
            assert(cells.drop_last()[i] == cells[i]);
        }
        lemma_count_all(cells.drop_last(), shape);
        assert(cells.last() == cells[cells.len() - 1]);
    }
}

/// Values of which none has a shape are not counted for it, and give no text
/// for it.
pub proof fn lemma_count_none(cells: Seq<FieldView>, shape: Shape)
    requires
        forall|i: int| 0 <= i < cells.len() ==> (#[trigger] cells[i]).shape() != shape,
    ensures
        count_of(cells, shape) == 0,
        texts_of(cells, shape) == Seq::<Seq<char>>::empty(),
    decreases cells.len(),
{
    if cells.len() > 0 {
        assert forall|i: int| 0 <= i < cells.drop_last().len() implies (
        #[trigger] cells.drop_last()[i]).shape() != shape by {
            assert(cells.drop_last()[i] == cells[i]);
        }
        lemma_count_none(cells.drop_last(), shape);
        assert(cells.last() == cells[cells.len() - 1]);
    }
}

/// The texts of the values of a shape that holds texts are the texts of
/// those values: each text comes from a value of the shape, and each value of
/// the shape gives its text.
pub proof fn lemma_texts_of(cells: Seq<FieldView>, shape: Shape)
    ensures
        forall|k: int|
            0 <= k < texts_of(cells, shape).len() ==> exists|i: int|
                0 <= i < cells.len() && (#[trigger] cells[i]).shape() == shape && text_of(cells[i])
                    == Some(#[trigger] texts_of(cells, shape)[k]),
        forall|i: int|
            0 <= i < cells.len() && (#[trigger] cells[i]).shape() == shape && text_of(cells[i])
                is Some ==> texts_of(cells, shape).contains(text_of(cells[i]).unwrap()),
    decreases cells.len(),
{
    let texts = texts_of(cells, shape);
    if cells.len() > 0 {
        let shorter = cells.drop_last();
        let before = texts_of(shorter, shape);
        lemma_texts_of(shorter, shape);
        let counts = cells.last().shape() == shape && text_of(cells.last()) is Some;
        assert forall|k: int| 0 <= k < texts.len() implies exists|i: int|
            0 <= i < cells.len() && (#[trigger] cells[i]).shape() == shape && text_of(cells[i])
                == Some(#[trigger] texts[k]) by {
            if k < before.len() {
                assert(texts[k] == before[k]);
                let i = choose|i: int|
                    0 <= i < shorter.len() && (#[trigger] shorter[i]).shape() == shape && text_of(
                        shorter[i],
                    ) == Some(before[k]);
                assert(cells[i] == shorter[i]);
            } else {
                assert(cells[cells.len() - 1].shape() == shape);
            }
        }
        assert forall|i: int|
            0 <= i < cells.len() && (#[trigger] cells[i]).shape() == shape && text_of(cells[i])
                is Some implies texts.contains(text_of(cells[i]).unwrap()) by {
            if i < shorter.len() {
                assert(shorter[i] == cells[i]);
                assert(before.contains(text_of(cells[i]).unwrap()));
                let k = choose|k: int| 0 <= k < before.len() && before[k] == text_of(
                    cells[i],
                ).unwrap();
                assert(texts[k] == before[k]);
            } else {
                assert(texts[before.len() as int] == text_of(cells[i]).unwrap());
            }
        }
    }
}

/// Where every classification of a subject holds the same value in a column
/// that must be the same, the reconciled value is that value, with `Okay`.
pub proof fn lemma_same_agreement(cells: Seq<FieldView>, value: Seq<char>)
    requires
        cells.len() > 0,
        forall|i: int| 0 <= i < cells.len() ==> #[trigger] cells[i] == (FieldView::Same { value }),
    ensures
        same_cell(cells) == (ReconciledView::Same {
            value,
            result: ResultView { flag: ReconciledFlag::Okay, notes: Seq::empty() },
        }),
{
    let texts = texts_of(cells, Shape::Same);
    lemma_texts_of(cells, Shape::Same);
    assert(cells[0].shape() == Shape::Same);
    assert(texts.contains(value));
    assert forall|k: int| 0 <= k < texts.len() implies #[trigger] texts[k] == value by {
        let i = choose|i: int|
            0 <= i < cells.len() && (#[trigger] cells[i]).shape() == Shape::Same && text_of(
                cells[i],
            ) == Some(texts[k]);
        assert(cells[i] == (FieldView::Same { value }));
    }
    assert(texts[0] == value);
}

/// Where two classifications of a subject hold different values in a column
/// that must be the same, the reconciled value carries `Error`.
pub proof fn lemma_same_conflict(cells: Seq<FieldView>, i: int, j: int)
    requires
        0 <= i < cells.len(),
        0 <= j < cells.len(),
        cells[i] is Same,
        cells[j] is Same,
        cells[i] != cells[j],
    ensures
        same_cell(cells).result().flag == ReconciledFlag::Error,
{
    let texts = texts_of(cells, Shape::Same);
    lemma_texts_of(cells, Shape::Same);
    let a = text_of(cells[i]).unwrap();
    let b = text_of(cells[j]).unwrap();
    assert(cells[i].shape() == Shape::Same);
    assert(cells[j].shape() == Shape::Same);
    assert(texts.contains(a));
    assert(texts.contains(b));
    let ka = choose|k: int| 0 <= k < texts.len() && texts[k] == a;
    let kb = choose|k: int| 0 <= k < texts.len() && texts[k] == b;
    assert(a != b);
    if all_same(texts) {
        assert(texts[ka] == texts[0]);
        assert(texts[kb] == texts[0]);
    }
}

} // verus!
