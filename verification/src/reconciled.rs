//! The reconciled table: for each subject and each column, the one value that
//! its classifications agree on, with a flag that says how sure it is.

use crate::number::{decimal, int_to_string, nat_to_string};
pub use crate::reconcile::Reconciled;
use crate::text::strings_view;
use vstd::prelude::*;

verus! {

/// How a reconciled value came about.
#[derive(Clone, Copy, Debug, PartialEq, Eq, Structural)]
pub enum ReconciledFlag {
    /// The values contradict each other where they must not.
    Error,
    /// The value could be computed.
    Okay,
    /// There was no value to work with.
    Empty,
    /// Every answer was blank.
    AllBlank,
    /// Every classification gave the same answer.
    Unanimous,
    /// One answer was given more often than each other answer.
    Majority,
    /// Only one classification gave an answer.
    OnlyOne,
    /// Several answers were given equally often, and none more often.
    NoMatch,
    /// The answers agree once near matches count as equal.
    Fuzzy,
}

/// The outcome of reconciling one column of one subject: the flag, and notes
/// for a reader.
#[derive(Clone, Debug, PartialEq, Eq)]
pub struct ReconciledResult {
    pub flag: ReconciledFlag,
    pub notes: String,
}

/// A reconciled value with its outcome, in the shape of its column. Lengths
/// are held in whole thousandths of a pixel, the factor of a ruler in whole
/// billionths of its unit per pixel.
#[derive(Clone, Debug, PartialEq, Eq)]
pub enum ReconciledField {
    Box_ { left: i32, top: i32, right: i32, bottom: i32, result: ReconciledResult },
    Length {
        x1: i32,
        y1: i32,
        x2: i32,
        y2: i32,
        length: u64,
        pixel_length: u64,
        units: String,
        result: ReconciledResult,
    },
    RulerLength {
        x1: i32,
        y1: i32,
        x2: i32,
        y2: i32,
        length: u64,
        pixel_length: u64,
        factor: u128,
        units: String,
        result: ReconciledResult,
    },
    List { value: String, result: ReconciledResult },
    NoOp { value: String, result: ReconciledResult },
    Point { x: i32, y: i32, result: ReconciledResult },
    Same { value: String, result: ReconciledResult },
    Select { value: String, result: ReconciledResult },
    Text { value: String, result: ReconciledResult },
}

/// A `ReconciledResult` as the contracts see it.
pub struct ResultView {
    pub flag: ReconciledFlag,
    pub notes: Seq<char>,
}

impl View for ReconciledResult {
    type V = ResultView;

    open spec fn view(&self) -> ResultView {
        ResultView { flag: self.flag, notes: self.notes@ }
    }
}

/// A `ReconciledField` as the contracts see it.
pub enum ReconciledView {
    Box_ { left: int, top: int, right: int, bottom: int, result: ResultView },
    Length {
        x1: int,
        y1: int,
        x2: int,
        y2: int,
        length: nat,
        pixel_length: nat,
        units: Seq<char>,
        result: ResultView,
    },
    RulerLength {
        x1: int,
        y1: int,
        x2: int,
        y2: int,
        length: nat,
        pixel_length: nat,
        factor: nat,
        units: Seq<char>,
        result: ResultView,
    },
    List { value: Seq<char>, result: ResultView },
    NoOp { value: Seq<char>, result: ResultView },
    Point { x: int, y: int, result: ResultView },
    Same { value: Seq<char>, result: ResultView },
    Select { value: Seq<char>, result: ResultView },
    Text { value: Seq<char>, result: ResultView },
}

impl View for ReconciledField {
    type V = ReconciledView;

    open spec fn view(&self) -> ReconciledView {
        match *self {
            ReconciledField::Box_ { left, top, right, bottom, result } => ReconciledView::Box_ {
                left: left as int,
                top: top as int,
                right: right as int,
                bottom: bottom as int,
                result: result@,
            },
            ReconciledField::Length {
                x1,
                y1,
                x2,
                y2,
                length,
                pixel_length,
                units,
                result,
            } => ReconciledView::Length {
                x1: x1 as int,
                y1: y1 as int,
                x2: x2 as int,
                y2: y2 as int,
                length: length as nat,
                pixel_length: pixel_length as nat,
                units: units@,
                result: result@,
            },
            ReconciledField::RulerLength {
                x1,
                y1,
                x2,
                y2,
                length,
                pixel_length,
                factor,
                units,
                result,
            } => ReconciledView::RulerLength {
                x1: x1 as int,
                y1: y1 as int,
                x2: x2 as int,
                y2: y2 as int,
                length: length as nat,
                pixel_length: pixel_length as nat,
                factor: factor as nat,
                units: units@,
                result: result@,
            },
            ReconciledField::List { value, result } => ReconciledView::List {
                value: value@,
                result: result@,
            },
            ReconciledField::NoOp { value, result } => ReconciledView::NoOp {
                value: value@,
                result: result@,
            },
            ReconciledField::Point { x, y, result } => ReconciledView::Point {
                x: x as int,
                y: y as int,
                result: result@,
            },
            ReconciledField::Same { value, result } => ReconciledView::Same {
                value: value@,
                result: result@,
            },
            ReconciledField::Select { value, result } => ReconciledView::Select {
                value: value@,
                result: result@,
            },
            ReconciledField::Text { value, result } => ReconciledView::Text {
                value: value@,
                result: result@,
            },
        }
    }
}

impl ReconciledView {
    /// The outcome that the value carries.
    pub open spec fn result(self) -> ResultView {
        match self {
            ReconciledView::Box_ { result, .. } => result,
            ReconciledView::Length { result, .. } => result,
            ReconciledView::RulerLength { result, .. } => result,
            ReconciledView::List { result, .. } => result,
            ReconciledView::NoOp { result, .. } => result,
            ReconciledView::Point { result, .. } => result,
            ReconciledView::Same { result, .. } => result,
            ReconciledView::Select { result, .. } => result,
            ReconciledView::Text { result, .. } => result,
        }
    }
}

impl ReconciledField {
    /// The outcome that the value carries.
    pub fn result(&self) -> (r: &ReconciledResult)
        ensures
            r@ == self@.result(),
    {
        match self {
            ReconciledField::Box_ { result, .. } => result,
            ReconciledField::Length { result, .. } => result,
            ReconciledField::RulerLength { result, .. } => result,
            ReconciledField::List { result, .. } => result,
            ReconciledField::NoOp { result, .. } => result,
            ReconciledField::Point { result, .. } => result,
            ReconciledField::Same { result, .. } => result,
            ReconciledField::Select { result, .. } => result,
            ReconciledField::Text { result, .. } => result,
        }
    }
}

/// The name of a flag as it is written.
pub open spec fn flag_text(flag: ReconciledFlag) -> Seq<char> {
    match flag {
        ReconciledFlag::Error => "Error"@,
        ReconciledFlag::Okay => "Ok"@,
        ReconciledFlag::Empty => "Empty"@,
        ReconciledFlag::AllBlank => "AllBlank"@,
        ReconciledFlag::Unanimous => "Unanimous"@,
        ReconciledFlag::Majority => "Majority"@,
        ReconciledFlag::OnlyOne => "OnlyOne"@,
        ReconciledFlag::NoMatch => "NoMatch"@,
        ReconciledFlag::Fuzzy => "Fuzzy"@,
    }
}

/// The names that the column of a reconciled value has in the written table:
/// one for each number or text of the value, then one for the flag and one
/// for the notes, the key of the column with the name of the part behind it.
pub open spec fn reconciled_names(key: Seq<char>, value: ReconciledView) -> Seq<Seq<char>> {
    (match value {
        ReconciledView::Box_ { .. } => seq![
            key + "_left"@,
            key + "_top"@,
            key + "_right"@,
            key + "_bottom"@,
        ],
        ReconciledView::Length { .. } => seq![
            key + "_x1"@,
            key + "_y1"@,
            key + "_x2"@,
            key + "_y2"@,
            key + "_length"@,
            key + "_pixel_length"@,
            key + "_units"@,
        ],
        ReconciledView::RulerLength { .. } => seq![
            key + "_x1"@,
            key + "_y1"@,
            key + "_x2"@,
            key + "_y2"@,
            key + "_length"@,
            key + "_pixel_length"@,
            key + "_factor"@,
            key + "_units"@,
        ],
        ReconciledView::Point { .. } => seq![key + "_x"@, key + "_y"@],
        _ => seq![key],
    }) + seq![key + "_flag"@, key + "_notes"@]
}

/// What a reconciled value writes under its names: its numbers in decimal
/// and its texts, then the name of its flag and its notes.
pub open spec fn reconciled_texts(value: ReconciledView) -> Seq<Seq<char>> {
    (match value {
        ReconciledView::Box_ { left, top, right, bottom, .. } => seq![
            decimal(left),
            decimal(top),
            decimal(right),
            decimal(bottom),
        ],
        ReconciledView::Length { x1, y1, x2, y2, length, pixel_length, units, .. } => seq![
            decimal(x1),
            decimal(y1),
            decimal(x2),
            decimal(y2),
            decimal(length as int),
            decimal(pixel_length as int),
            units,
        ],
        ReconciledView::RulerLength {
            x1,
            y1,
            x2,
            y2,
            length,
            pixel_length,
            factor,
            units,
            ..
        } => seq![
            decimal(x1),
            decimal(y1),
            decimal(x2),
            decimal(y2),
            decimal(length as int),
            decimal(pixel_length as int),
            decimal(factor as int),
            units,
        ],
        ReconciledView::List { value, .. } => seq![value],
        ReconciledView::NoOp { value, .. } => seq![value],
        ReconciledView::Point { x, y, .. } => seq![decimal(x), decimal(y)],
        ReconciledView::Same { value, .. } => seq![value],
        ReconciledView::Select { value, .. } => seq![value],
        ReconciledView::Text { value, .. } => seq![value],
    }) + seq![flag_text(value.result().flag), value.result().notes]
}

/// A reconciled value writes one text under each of its names.
pub proof fn lemma_texts_fit_names(key: Seq<char>, value: ReconciledView)
    ensures
        reconciled_texts(value).len() == reconciled_names(key, value).len(),
{
}

/// The name of a flag as it is written.
pub fn flag_name(flag: ReconciledFlag) -> (r: String)
    ensures
        r@ == flag_text(flag),
{
    String::from_str(
        match flag {
            ReconciledFlag::Error => "Error",
            ReconciledFlag::Okay => "Ok",
            ReconciledFlag::Empty => "Empty",
            ReconciledFlag::AllBlank => "AllBlank",
            ReconciledFlag::Unanimous => "Unanimous",
            ReconciledFlag::Majority => "Majority",
            ReconciledFlag::OnlyOne => "OnlyOne",
            ReconciledFlag::NoMatch => "NoMatch",
            ReconciledFlag::Fuzzy => "Fuzzy",
        },
    )
}

/// The key with the name of a part behind it.
fn part_name(key: &String, part: &str) -> (r: String)
    ensures
        r@ == key@ + part@,
{
    let mut r = key.clone();
    r.append(part);
    r
}

impl ReconciledField {
    /// Appends the names that the column of this value has in the written
    /// table.
    pub fn push_names(&self, key: &String, out: &mut Vec<String>)
        ensures
            strings_view(final(out)@) == strings_view(old(out)@) + reconciled_names(key@, self@),
    {
        match self {
            ReconciledField::Box_ { .. } => {
                out.push(part_name(key, "_left"));
                out.push(part_name(key, "_top"));
                out.push(part_name(key, "_right"));
                out.push(part_name(key, "_bottom"));
            },
            ReconciledField::Length { .. } => {
                out.push(part_name(key, "_x1"));
                out.push(part_name(key, "_y1"));
                out.push(part_name(key, "_x2"));
                out.push(part_name(key, "_y2"));
                out.push(part_name(key, "_length"));
                out.push(part_name(key, "_pixel_length"));
                out.push(part_name(key, "_units"));
            },
            ReconciledField::RulerLength { .. } => {
                out.push(part_name(key, "_x1"));
                out.push(part_name(key, "_y1"));
                out.push(part_name(key, "_x2"));
                out.push(part_name(key, "_y2"));
                out.push(part_name(key, "_length"));
                out.push(part_name(key, "_pixel_length"));
                out.push(part_name(key, "_factor"));
                out.push(part_name(key, "_units"));
            },
            ReconciledField::Point { .. } => {
                out.push(part_name(key, "_x"));
                out.push(part_name(key, "_y"));
            },
            _ => {
                out.push(key.clone());
            },
        }
        out.push(part_name(key, "_flag"));
        out.push(part_name(key, "_notes"));
        assert(strings_view(out@) =~= strings_view(old(out)@) + reconciled_names(key@, self@));
    }

    /// Appends what this value writes under its names.
    pub fn push_texts(&self, out: &mut Vec<String>)
        ensures
            strings_view(final(out)@) == strings_view(old(out)@) + reconciled_texts(self@),
    {
        match self {
            ReconciledField::Box_ { left, top, right, bottom, .. } => {
                out.push(int_to_string(*left as i128));
                out.push(int_to_string(*top as i128));
                out.push(int_to_string(*right as i128));
                out.push(int_to_string(*bottom as i128));
            },
            ReconciledField::Length { x1, y1, x2, y2, length, pixel_length, units, .. } => {
                out.push(int_to_string(*x1 as i128));
                out.push(int_to_string(*y1 as i128));
                out.push(int_to_string(*x2 as i128));
                out.push(int_to_string(*y2 as i128));
                out.push(int_to_string(*length as i128));
                out.push(int_to_string(*pixel_length as i128));
                out.push(units.clone());
            },
            ReconciledField::RulerLength {
                x1,
                y1,
                x2,
                y2,
                length,
                pixel_length,
                factor,
                units,
                ..
            } => {
                out.push(int_to_string(*x1 as i128));
                out.push(int_to_string(*y1 as i128));
                out.push(int_to_string(*x2 as i128));
                out.push(int_to_string(*y2 as i128));
                out.push(int_to_string(*length as i128));
                out.push(int_to_string(*pixel_length as i128));
                out.push(nat_to_string(*factor));
                out.push(units.clone());
            },
            ReconciledField::List { value, .. } => {
                out.push(value.clone());
            },
            ReconciledField::NoOp { value, .. } => {
                out.push(value.clone());
            },
            ReconciledField::Point { x, y, .. } => {
                out.push(int_to_string(*x as i128));
                out.push(int_to_string(*y as i128));
            },
            ReconciledField::Same { value, .. } => {
                out.push(value.clone());
            },
            ReconciledField::Select { value, .. } => {
                out.push(value.clone());
            },
            ReconciledField::Text { value, .. } => {
                out.push(value.clone());
            },
        }
        out.push(flag_name(self.result().flag));
        out.push(self.result().notes.clone());
        assert(strings_view(out@) =~= strings_view(old(out)@) + reconciled_texts(self@));
    }
}

} // verus!
