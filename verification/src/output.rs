//! Writing a table as text: the names of the columns and the texts of the
//! values.

use crate::flat::{FieldView, FlatField, Shape};
use crate::number::{decimal, int_to_string};
use crate::text::strings_view;
use vstd::prelude::*;

verus! {

/// How many columns of the written table a column of this shape takes.
pub open spec fn width(shape: Shape) -> nat {
    match shape {
        Shape::Null => 0,
        Shape::Box_ => 4,
        Shape::Length => 4,
        Shape::Point => 2,
        _ => 1,
    }
}

/// The names that a column has in the written table: one for each number of
/// a box, a length or a point, the key with the number's name behind it; the
/// key alone for the other shapes.
pub open spec fn header_names(key: Seq<char>, shape: Shape) -> Seq<Seq<char>> {
    match shape {
        Shape::Null => Seq::empty(),
        Shape::Box_ => seq![key + "_left"@, key + "_top"@, key + "_right"@, key + "_bottom"@],
        Shape::Length => seq![key + "_x1"@, key + "_y1"@, key + "_x2"@, key + "_y2"@],
        Shape::Point => seq![key + "_x"@, key + "_y"@],
        _ => seq![key],
    }
}

/// So many empty texts.
pub open spec fn blanks(count: nat) -> Seq<Seq<char>> {
    Seq::new(count, |i: int| Seq::<char>::empty())
}

/// The texts of a value: its numbers in decimal, or its one text.
pub open spec fn value_texts(value: FieldView) -> Seq<Seq<char>> {
    match value {
        FieldView::Null => Seq::empty(),
        FieldView::Box_ { left, top, right, bottom } => seq![
            decimal(left),
            decimal(top),
            decimal(right),
            decimal(bottom),
        ],
        FieldView::Length { x1, y1, x2, y2 } => seq![
            decimal(x1),
            decimal(y1),
            decimal(x2),
            decimal(y2),
        ],
        FieldView::List { values, value } => seq![value],
        FieldView::NoOp { value } => seq![value],
        FieldView::Point { x, y } => seq![decimal(x), decimal(y)],
        FieldView::Same { value } => seq![value],
        FieldView::Select { value } => seq![value],
        FieldView::Text { value } => seq![value],
    }
}

/// The key with a suffix behind it.
fn suffixed(key: &String, suffix: &str) -> (r: String)
    ensures
        r@ == key@ + suffix@,
{
    let mut r = key.clone();
    r.append(suffix);
    r
}

/// Appends the names that a column has in the written table.
pub fn push_header_names(out: &mut Vec<String>, key: &String, shape: Shape)
    ensures
        strings_view(final(out)@) == strings_view(old(out)@) + header_names(key@, shape),
{
    match shape {
        Shape::Null => {},
        Shape::Box_ => {
            out.push(suffixed(key, "_left"));
            out.push(suffixed(key, "_top"));
            out.push(suffixed(key, "_right"));
            out.push(suffixed(key, "_bottom"));
        },
        Shape::Length => {
            out.push(suffixed(key, "_x1"));
            out.push(suffixed(key, "_y1"));
            out.push(suffixed(key, "_x2"));
            out.push(suffixed(key, "_y2"));
        },
        Shape::Point => {
            out.push(suffixed(key, "_x"));
            out.push(suffixed(key, "_y"));
        },
        _ => {
            out.push(key.clone());
        },
    }
    assert(strings_view(out@) =~= strings_view(old(out)@) + header_names(key@, shape));
}

/// Appends so many empty texts.
pub fn push_blanks(out: &mut Vec<String>, count: usize)
    ensures
        strings_view(final(out)@) == strings_view(old(out)@) + blanks(count as nat),
{
    let mut i: usize = 0;
    assert(strings_view(out@) =~= strings_view(old(out)@) + blanks(0));
    while i < count
        invariant
            i <= count,
            strings_view(out@) == strings_view(old(out)@) + blanks(i as nat),
        decreases count - i,
    {
        let ghost before = strings_view(out@);
        out.push(String::new());
        assert(strings_view(out@) =~= before + seq![Seq::<char>::empty()]);
        assert(strings_view(out@) =~= strings_view(old(out)@) + blanks((i + 1) as nat));
        i += 1;
    }
}

/// Appends the texts of a value.
pub fn push_value_texts(out: &mut Vec<String>, value: &FlatField)
    ensures
        strings_view(final(out)@) == strings_view(old(out)@) + value_texts(value@),
{
    match value {
        FlatField::Null => {},
        FlatField::Box_ { left, top, right, bottom } => {
            out.push(int_to_string(*left as i128));
            out.push(int_to_string(*top as i128));
            out.push(int_to_string(*right as i128));
            out.push(int_to_string(*bottom as i128));
        },
        FlatField::Length { x1, y1, x2, y2 } => {
            out.push(int_to_string(*x1 as i128));
            out.push(int_to_string(*y1 as i128));
            out.push(int_to_string(*x2 as i128));
            out.push(int_to_string(*y2 as i128));
        },
        FlatField::List { values: _, value } => {
            out.push(value.clone());
        },
        FlatField::NoOp { value } => {
            out.push(value.clone());
        },
        FlatField::Point { x, y } => {
            out.push(int_to_string(*x as i128));
            out.push(int_to_string(*y as i128));
        },
        FlatField::Same { value } => {
            out.push(value.clone());
        },
        FlatField::Select { value } => {
            out.push(value.clone());
        },
        FlatField::Text { value } => {
            out.push(value.clone());
        },
    }
    assert(strings_view(out@) =~= strings_view(old(out)@) + value_texts(value@));
}

/// How many columns of the written table a column of this shape takes.
pub fn shape_width(shape: Shape) -> (n: usize)
    ensures
        n == width(shape),
{
    match shape {
        Shape::Null => 0,
        Shape::Box_ => 4,
        Shape::Length => 4,
        Shape::Point => 2,
        _ => 1,
    }
}

} // verus!
