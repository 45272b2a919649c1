//! The flat table: one row per classification, one column per annotation
//! field discovered so far.

use crate::output::{
    blanks, header_names, push_blanks, push_header_names, push_value_texts, shape_width, value_texts,
    width,
};
use crate::order::{
    first_without_subject, group_ok, group_subjects, ids_view, is_grouping, lemma_placed_at,
    lemma_sorted_first, ordered, row_grouped, sorted_first, Group, NoSubject,
};
use crate::text::{clone_strings, lex_le, lex_lt, str_le, strings_view};
use indexmap::IndexMap;
use vstd::prelude::*;

verus! {

/// The insertion-ordered hash map of the `indexmap` crate. The verifier sees
/// nothing inside it: what a row holds is `row_entries`.
#[verifier::external_type_specification]
#[verifier::external_body]
#[verifier::reject_recursive_types(K)]
#[verifier::reject_recursive_types(V)]
#[verifier::reject_recursive_types(S)]
pub struct ExIndexMap<K, V, S>(IndexMap<K, V, S>);

/// One annotation value of a classification, in one of the shapes that the
/// annotation tools produce. `Null` stands for "no value in this column".
#[derive(Clone, Debug, Eq, Ord, PartialEq, PartialOrd)]
pub enum FlatField {
    Null,
    Box_ { left: i32, top: i32, right: i32, bottom: i32 },
    Length { x1: i32, y1: i32, x2: i32, y2: i32 },
    List { values: Vec<String>, value: String },
    NoOp { value: String },
    Point { x: i32, y: i32 },
    Same { value: String },
    Select { value: String },
    Text { value: String },
}

/// What a `FlatField` holds, with strings as character sequences.
pub enum FieldView {
    Null,
    Box_ { left: int, top: int, right: int, bottom: int },
    Length { x1: int, y1: int, x2: int, y2: int },
    List { values: Seq<Seq<char>>, value: Seq<char> },
    NoOp { value: Seq<char> },
    Point { x: int, y: int },
    Same { value: Seq<char> },
    Select { value: Seq<char> },
    Text { value: Seq<char> },
}

/// The shape of a field: its variant without its contents.
#[derive(Clone, Copy, Debug, PartialEq, Eq, Structural)]
pub enum Shape {
    Null,
    Box_,
    Length,
    List,
    NoOp,
    Point,
    Same,
    Select,
    Text,
}

impl View for FlatField {
    type V = FieldView;

    open spec fn view(&self) -> FieldView {
        match *self {
            FlatField::Null => FieldView::Null,
            FlatField::Box_ { left, top, right, bottom } => FieldView::Box_ {
                left: left as int,
                top: top as int,
                right: right as int,
                bottom: bottom as int,
            },
            FlatField::Length { x1, y1, x2, y2 } => FieldView::Length {
                x1: x1 as int,
                y1: y1 as int,
                x2: x2 as int,
                y2: y2 as int,
            },
            FlatField::List { values, value } => FieldView::List {
                values: strings_view(values@),
                value: value@,
            },
            FlatField::NoOp { value } => FieldView::NoOp { value: value@ },
            FlatField::Point { x, y } => FieldView::Point { x: x as int, y: y as int },
            FlatField::Same { value } => FieldView::Same { value: value@ },
            FlatField::Select { value } => FieldView::Select { value: value@ },
            FlatField::Text { value } => FieldView::Text { value: value@ },
        }
    }
}

impl FieldView {
    /// The shape of this value.
    pub open spec fn shape(self) -> Shape {
        match self {
            FieldView::Null => Shape::Null,
            FieldView::Box_ { .. } => Shape::Box_,
            FieldView::Length { .. } => Shape::Length,
            FieldView::List { .. } => Shape::List,
            FieldView::NoOp { .. } => Shape::NoOp,
            FieldView::Point { .. } => Shape::Point,
            FieldView::Same { .. } => Shape::Same,
            FieldView::Select { .. } => Shape::Select,
            FieldView::Text { .. } => Shape::Text,
        }
    }
}

impl FlatField {
    /// The shape of this value.
    pub fn shape(&self) -> (s: Shape)
        ensures
            s == self@.shape(),
    {
        match self {
            FlatField::Null => Shape::Null,
            FlatField::Box_ { .. } => Shape::Box_,
            FlatField::Length { .. } => Shape::Length,
            FlatField::List { .. } => Shape::List,
            FlatField::NoOp { .. } => Shape::NoOp,
            FlatField::Point { .. } => Shape::Point,
            FlatField::Same { .. } => Shape::Same,
            FlatField::Select { .. } => Shape::Select,
            FlatField::Text { .. } => Shape::Text,
        }
    }

    /// A copy that holds the same value.
    pub fn duplicate(&self) -> (r: FlatField)
        ensures
            r@ == self@,
    {
        match self {
            FlatField::Null => FlatField::Null,
            FlatField::Box_ { left, top, right, bottom } => FlatField::Box_ {
                left: *left,
                top: *top,
                right: *right,
                bottom: *bottom,
            },
            FlatField::Length { x1, y1, x2, y2 } => FlatField::Length {
                x1: *x1,
                y1: *y1,
                x2: *x2,
                y2: *y2,
            },
            FlatField::List { values, value } => FlatField::List {
                values: clone_strings(values),
                value: value.clone(),
            },
            FlatField::NoOp { value } => FlatField::NoOp { value: value.clone() },
            FlatField::Point { x, y } => FlatField::Point { x: *x, y: *y },
            FlatField::Same { value } => FlatField::Same { value: value.clone() },
            FlatField::Select { value } => FlatField::Select { value: value.clone() },
            FlatField::Text { value } => FlatField::Text { value: value.clone() },
        }
    }
}

/// One row: column key to value, in insertion order.
pub type FlatRow = IndexMap<String, FlatField>;

/// The entries of a row as the verifier sees them: key and value, in order.
pub type Entries = Seq<(Seq<char>, FieldView)>;

/// What a row holds: its key-value pairs in the map's order.
pub uninterp spec fn row_entries(row: IndexMap<String, FlatField>) -> Entries;

/// Whether some entry has this key.
pub open spec fn has_key(e: Entries, key: Seq<char>) -> bool {
    exists|i: int| 0 <= i < e.len() && (#[trigger] e[i]).0 == key
}

/// Whether `i` is the first position that holds this key.
pub open spec fn is_first(e: Entries, key: Seq<char>, i: int) -> bool {
    &&& 0 <= i < e.len()
    &&& e[i].0 == key
    &&& forall|j: int| 0 <= j < i ==> (#[trigger] e[j]).0 != key
}

/// The first position that holds this key (arbitrary where none does).
pub open spec fn key_index(e: Entries, key: Seq<char>) -> int {
    choose|i: int| is_first(e, key, i)
}

/// The value under this key, if any.
pub open spec fn lookup(e: Entries, key: Seq<char>) -> Option<FieldView> {
    if has_key(e, key) {
        Some(e[key_index(e, key)].1)
    } else {
        None
    }
}

/// The entries after `key` is set to `value`: an entry with this key keeps its
/// place and takes the value, a new key goes last.
pub open spec fn inserted(e: Entries, key: Seq<char>, value: FieldView) -> Entries {
    if has_key(e, key) {
        e.update(key_index(e, key), (key, value))
    } else {
        e.push((key, value))
    }
}

/// A key that occurs has a first position.
pub proof fn lemma_first_exists(e: Entries, key: Seq<char>)
    requires
        has_key(e, key),
    ensures
        is_first(e, key, key_index(e, key)),
    decreases e.len(),
{
    let w = choose|i: int| 0 <= i < e.len() && (#[trigger] e[i]).0 == key;
    lemma_first_below(e, key, w);
}

proof fn lemma_first_below(e: Entries, key: Seq<char>, w: int)
    requires
        0 <= w < e.len(),
        e[w].0 == key,
    ensures
        exists|i: int| is_first(e, key, i),
    decreases w,
{
    if forall|j: int| 0 <= j < w ==> (#[trigger] e[j]).0 != key {
        assert(is_first(e, key, w));
    } else {
        let j = choose|j: int| 0 <= j < w && (#[trigger] e[j]).0 == key;
        lemma_first_below(e, key, j);
    }
}

/// The first position of a key is the only one that `is_first` admits.
pub proof fn lemma_first_unique(e: Entries, key: Seq<char>, i: int)
    requires
        is_first(e, key, i),
    ensures
        has_key(e, key),
        key_index(e, key) == i,
{
    assert(e[i].0 == key);
    let k = key_index(e, key);
    assert(is_first(e, key, k));
    if k < i {
        assert(e[k].0 != key);
    } else if i < k {
        assert(e[i].0 != key);
    }
}

/// A new, empty row (`IndexMap::new`).
#[verifier::external_body]
pub(crate) fn row_new() -> (row: FlatRow)
    ensures
        row_entries(row) == Seq::<(Seq<char>, FieldView)>::empty(),
{
    IndexMap::new()
}

/// The number of entries (`IndexMap::len`).
#[verifier::external_body]
pub(crate) fn row_len(row: &FlatRow) -> (n: usize)
    ensures
        n == row_entries(*row).len(),
{
    row.len()
}

/// The position of a key (`IndexMap::get_index_of`): the first, which in a map
/// is the only, position whose key equals `key`, or `None` where no key does.
#[verifier::external_body]
pub(crate) fn row_index_of(row: &FlatRow, key: &str) -> (r: Option<usize>)
    ensures
        match r {
            Some(i) => is_first(row_entries(*row), key@, i as int),
            None => !has_key(row_entries(*row), key@),
        },
{
    row.get_index_of(key)
}

/// The entry at a position (`IndexMap::get_index`): its key and its value.
#[verifier::external_body]
pub(crate) fn row_entry(row: &FlatRow, index: usize) -> (r: (&String, &FlatField))
    requires
        index < row_entries(*row).len(),
    ensures
        (r.0@, r.1@) == row_entries(*row)[index as int],
{
    row.get_index(index).unwrap()
}

/// Sets `key` to `value` (`IndexMap::insert`). A key that is present keeps its
/// place and its old value is returned; a new key goes last and nothing is
/// returned.
#[verifier::external_body]
pub(crate) fn row_insert(row: &mut FlatRow, key: String, value: FlatField) -> (r: Option<FlatField>)
    ensures
        row_entries(*final(row)) == inserted(row_entries(*old(row)), key@, value@),
        match r {
            Some(x) => lookup(row_entries(*old(row)), key@) == Some(x@),
            None => !has_key(row_entries(*old(row)), key@),
        },
{
    row.insert(key, value)
}

/// A copy of a row (`IndexMap::clone`): the same entries in the same order.
#[verifier::external_body]
pub(crate) fn row_clone(row: &FlatRow) -> (copy: FlatRow)
    ensures
        row_entries(copy) == row_entries(*row),
{
    row.clone()
}

/// The rows of a table by subject: subject to rows, in insertion order.
pub type Grouped = IndexMap<String, Vec<FlatRow>>;

/// The groups as the verifier sees them: each subject with its rows, in order.
pub type Groups = Seq<(Seq<char>, Seq<Entries>)>;

/// What a grouping holds: its subjects, each with its rows, in the map's
/// order.
pub uninterp spec fn grouped_entries(
    groups: IndexMap<String, Vec<IndexMap<String, FlatField>>>,
) -> Groups;

/// Rows as the verifier sees them: the entries of each.
pub open spec fn rows_entries(rows: Seq<FlatRow>) -> Seq<Entries> {
    Seq::new(rows.len(), |i: int| row_entries(rows[i]))
}

/// Whether the groups hold this subject.
pub open spec fn has_subject(groups: Groups, subject: Seq<char>) -> bool {
    exists|g: int| 0 <= g < groups.len() && (#[trigger] groups[g]).0 == subject
}

/// A new grouping without subjects (`IndexMap::new`).
#[verifier::external_body]
pub(crate) fn grouped_new() -> (groups: Grouped)
    ensures
        grouped_entries(groups) == Seq::<(Seq<char>, Seq<Entries>)>::empty(),
{
    IndexMap::new()
}

/// Adds a subject that the grouping does not hold yet, with its rows
/// (`IndexMap::insert`): the new subject goes last.
#[verifier::external_body]
pub(crate) fn grouped_insert(groups: &mut Grouped, subject: String, rows: Vec<FlatRow>)
    requires
        !has_subject(grouped_entries(*old(groups)), subject@),
    ensures
        grouped_entries(*final(groups)) == grouped_entries(*old(groups)).push(
            (subject@, rows_entries(rows@)),
        ),
{
    groups.insert(subject, rows);
}

/// The value under `key`, if the row has one.
pub fn row_get<'a>(row: &'a FlatRow, key: &str) -> (r: Option<&'a FlatField>)
    ensures
        match r {
            Some(v) => lookup(row_entries(*row), key@) == Some(v@),
            None => lookup(row_entries(*row), key@) is None,
        },
{
    match row_index_of(row, key) {
        Some(i) => {
            proof {
                lemma_first_unique(row_entries(*row), key@, i as int);
            }
            Some(row_entry(row, i).1)
        },
        None => None,
    }
}

/// A defect of the schema: a value has another shape than the column that
/// it belongs to.
#[derive(Clone, Debug, PartialEq, Eq)]
pub struct ShapeMismatch {
    pub column: String,
}

/// Whether no two entries have the same key.
pub open spec fn distinct_keys(e: Entries) -> bool {
    forall|i: int, j: int| 0 <= i < j < e.len() ==> (#[trigger] e[i]).0 != (#[trigger] e[j]).0
}

/// Whether a stored row fits the schema: a cell for every column, in the
/// order of the columns, each cell empty or of the shape of its column.
pub open spec fn aligned_row(schema: Entries, row: Entries) -> bool {
    &&& row.len() == schema.len()
    &&& forall|i: int|
        0 <= i < schema.len() ==> {
            &&& (#[trigger] row[i]).0 == schema[i].0
            &&& (row[i].1 is Null || row[i].1.shape() == schema[i].1.shape())
        }
}

/// Whether a schema and the rows stored under it make a table: the columns
/// have distinct keys and a shape each, and every row fits the schema.
pub open spec fn table_wf(schema: Entries, rows: Seq<Entries>) -> bool {
    &&& distinct_keys(schema)
    &&& forall|i: int| 0 <= i < schema.len() ==> !((#[trigger] schema[i]).1 is Null)
    &&& forall|r: int| 0 <= r < rows.len() ==> aligned_row(schema, #[trigger] rows[r])
}

/// Whether a cell holds a value of another shape than the column of its key.
pub open spec fn clashes(schema: Entries, cell: (Seq<char>, FieldView)) -> bool {
    &&& !(cell.1 is Null)
    &&& has_key(schema, cell.0)
    &&& lookup(schema, cell.0).unwrap().shape() != cell.1.shape()
}

/// Whether some cell of the row clashes with the schema.
pub open spec fn has_clash(schema: Entries, row: Entries) -> bool {
    exists|i: int| 0 <= i < row.len() && clashes(schema, #[trigger] row[i])
}

/// Whether the cell at `i` is the first of the row that clashes with the schema.
pub open spec fn first_clash(schema: Entries, row: Entries, i: int) -> bool {
    &&& 0 <= i < row.len()
    &&& clashes(schema, row[i])
    &&& forall|j: int| 0 <= j < i ==> !clashes(schema, #[trigger] row[j])
}

/// The first cell of the row that clashes with the schema (arbitrary where
/// none does).
pub open spec fn clash_index(schema: Entries, row: Entries) -> int {
    choose|i: int| first_clash(schema, row, i)
}

/// The first clash is the only one that `first_clash` admits.
pub proof fn lemma_first_clash_unique(schema: Entries, row: Entries, i: int)
    requires
        first_clash(schema, row, i),
    ensures
        has_clash(schema, row),
        clash_index(schema, row) == i,
{
    let k = clash_index(schema, row);
    assert(first_clash(schema, row, k));
    if k < i {
        assert(!clashes(schema, row[k]));
    } else if i < k {
        assert(!clashes(schema, row[i]));
    }
}

/// The schema once the first `n` cells of a row are seen: each cell that holds
/// a value under a key that is not yet a column adds a column, last in order,
/// with that value as the first seen.
pub open spec fn grown(schema: Entries, row: Entries, n: nat) -> Entries
    decreases n,
{
    if n == 0 || n > row.len() {
        schema
    } else {
        let before = grown(schema, row, (n - 1) as nat);
        let cell = row[n - 1];
        if cell.1 is Null || has_key(before, cell.0) {
            before
        } else {
            before.push(cell)
        }
    }
}

/// A row as it is stored under a schema: for each column, in order, the value
/// that the row holds under the key of the column, or `Null`.
pub open spec fn fitted(schema: Entries, row: Entries) -> Entries {
    Seq::new(
        schema.len(),
        |i: int|
            (
                schema[i].0,
                match lookup(row, schema[i].0) {
                    Some(value) => value,
                    None => FieldView::Null,
                },
            ),
    )
}

/// A stored row made as long as the schema: `Null` under each column that it
/// has no cell for.
pub open spec fn padded(schema: Entries, row: Entries) -> Entries {
    Seq::new(
        schema.len(),
        |i: int|
            if i < row.len() {
                row[i]
            } else {
                (schema[i].0, FieldView::Null)
            },
    )
}

/// Every stored row made as long as the schema.
pub open spec fn padded_all(schema: Entries, rows: Seq<Entries>) -> Seq<Entries> {
    Seq::new(rows.len(), |r: int| padded(schema, rows[r]))
}

/// What growing a schema by a row keeps and adds: the old columns stay in
/// front, the keys stay distinct, every new column holds the first value of
/// the row under its key that is not `Null`, and every such value has a column.
pub proof fn lemma_grown(schema: Entries, row: Entries, n: nat)
    requires
        n <= row.len(),
        distinct_keys(schema),
    ensures
        schema.len() <= grown(schema, row, n).len(),
        grown(schema, row, n).take(schema.len() as int) == schema,
        distinct_keys(grown(schema, row, n)),
        forall|j: int|
            schema.len() <= j < grown(schema, row, n).len() ==> {
                &&& !((#[trigger] grown(schema, row, n)[j]).1 is Null)
                &&& !has_key(schema, grown(schema, row, n)[j].0)
                &&& exists|i: int|
                    {
                        &&& 0 <= i < n
                        &&& #[trigger] row[i] == grown(schema, row, n)[j]
                        &&& forall|k: int|
                            0 <= k < i && (#[trigger] row[k]).0 == row[i].0 ==> row[k].1 is Null
                    }
            },
        forall|i: int|
            0 <= i < n && !((#[trigger] row[i]).1 is Null) ==> has_key(
                grown(schema, row, n),
                row[i].0,
            ),
    decreases n,
{
    let g = grown(schema, row, n);
    if n == 0 {
        assert(g.take(schema.len() as int) =~= schema);
    } else {
        let before = grown(schema, row, (n - 1) as nat);
        let cell = row[n - 1];
        lemma_grown(schema, row, (n - 1) as nat);
        if cell.1 is Null || has_key(before, cell.0) {
            assert(g == before);
            assert forall|j: int| schema.len() <= j < g.len() implies {
                &&& !((#[trigger] g[j]).1 is Null)
                &&& !has_key(schema, g[j].0)
                &&& exists|i: int|
                    {
                        &&& 0 <= i < n
                        &&& #[trigger] row[i] == g[j]
                        &&& forall|k: int|
                            0 <= k < i && (#[trigger] row[k]).0 == row[i].0 ==> row[k].1 is Null
                    }
            } by {
                let i = choose|i: int|
                    {
                        &&& 0 <= i < n - 1
                        &&& #[trigger] row[i] == before[j]
                        &&& forall|k: int|
                            0 <= k < i && (#[trigger] row[k]).0 == row[i].0 ==> row[k].1 is Null
                    };
                assert(row[i] == g[j]);
            }
        } else {
            assert(g == before.push(cell));
            assert(g.take(schema.len() as int) =~= before.take(schema.len() as int));
            assert(distinct_keys(g)) by {
                assert forall|a: int, b: int| 0 <= a < b < g.len() implies (#[trigger] g[a]).0 != (
                #[trigger] g[b]).0 by {
                    if b == before.len() {
                        assert(before[a].0 != cell.0);
                    } else {
                        assert(before[a].0 != before[b].0);
                    }
                }
            }
            assert(!has_key(schema, cell.0)) by {
                if has_key(schema, cell.0) {
                    let w = choose|w: int| 0 <= w < schema.len() && (#[trigger] schema[w]).0
                        == cell.0;
                    assert(before.take(schema.len() as int)[w] == schema[w]);
                    assert(before[w].0 == cell.0);
                }
            }
            assert forall|j: int| schema.len() <= j < g.len() implies {
                &&& !((#[trigger] g[j]).1 is Null)
                &&& !has_key(schema, g[j].0)
                &&& exists|i: int|
                    {
                        &&& 0 <= i < n
                        &&& #[trigger] row[i] == g[j]
                        &&& forall|k: int|
                            0 <= k < i && (#[trigger] row[k]).0 == row[i].0 ==> row[k].1 is Null
                    }
            } by {
                if j < before.len() {
                    let i = choose|i: int|
                        {
                            &&& 0 <= i < n - 1
                            &&& #[trigger] row[i] == before[j]
                            &&& forall|k: int|
                                0 <= k < i && (#[trigger] row[k]).0 == row[i].0 ==> row[k].1 is Null
                        };
                    assert(row[i] == g[j]);
                } else {
                    // an earlier cell under this key with a value would have made the column
                    assert forall|k: int| 0 <= k < n - 1 && (#[trigger] row[k]).0 == cell.0
                        implies row[k].1 is Null by {
                        if !(row[k].1 is Null) {
                            assert(has_key(before, row[k].0));
                        }
                    }
                    assert(row[n - 1] == g[j]);
                }
            }
            assert forall|i: int| 0 <= i < n && !((#[trigger] row[i]).1 is Null) implies has_key(
                g,
                row[i].0,
            ) by {
                if i < n - 1 {
                    let w = choose|w: int| 0 <= w < before.len() && (#[trigger] before[w]).0
                        == row[i].0;
                    assert(g[w].0 == row[i].0);
                } else {
                    assert(g[before.len() as int].0 == row[i].0);
                }
            }
        }
    }
}

/// A row that does not clash with a schema fits the schema grown by it.
pub proof fn lemma_fitted_aligned(schema: Entries, row: Entries)
    requires
        distinct_keys(schema),
        !has_clash(schema, row),
    ensures
        aligned_row(
            grown(schema, row, row.len()),
            fitted(grown(schema, row, row.len()), row),
        ),
{
    let g = grown(schema, row, row.len());
    let f = fitted(g, row);
    lemma_grown(schema, row, row.len());
    assert forall|j: int| 0 <= j < g.len() implies {
        &&& (#[trigger] f[j]).0 == g[j].0
        &&& (f[j].1 is Null || f[j].1.shape() == g[j].1.shape())
    } by {
        let key = g[j].0;
        if has_key(row, key) && !(f[j].1 is Null) {
            lemma_first_exists(row, key);
            let first = key_index(row, key);
            assert(!clashes(schema, row[first]));
            if j < schema.len() {
                assert(g.take(schema.len() as int)[j] == schema[j]);
                assert(is_first(schema, key, j)) by {
                    assert forall|k: int| 0 <= k < j implies (#[trigger] schema[k]).0 != key by {
                        assert(schema[k].0 != schema[j].0);
                    }
                }
                lemma_first_unique(schema, key, j);
            } else {
                let i = choose|i: int|
                    {
                        &&& 0 <= i < row.len()
                        &&& #[trigger] row[i] == g[j]
                        &&& forall|k: int|
                            0 <= k < i && (#[trigger] row[k]).0 == row[i].0 ==> row[k].1 is Null
                    };
                if first < i {
                    assert(row[first].1 is Null);
                } else if i < first {
                    assert(row[i].0 != key);
                }
            }
        }
    }
}

/// Adding a row keeps the table aligned: after it, as before, the columns
/// have distinct keys and a shape each, and every stored row, the new one
/// among them, has a cell for every column, in the order of the columns,
/// empty or of the shape of its column.
pub proof fn lemma_add_row_aligned(schema: Entries, rows: Seq<Entries>, row: Entries)
    requires
        table_wf(schema, rows),
        !has_clash(schema, row),
    ensures
        table_wf(
            grown(schema, row, row.len()),
            padded_all(grown(schema, row, row.len()), rows).push(
                fitted(grown(schema, row, row.len()), row),
            ),
        ),
{
    let wider = grown(schema, row, row.len());
    let after = padded_all(wider, rows).push(fitted(wider, row));
    lemma_grown(schema, row, row.len());
    lemma_fitted_aligned(schema, row);
    assert forall|i: int| 0 <= i < wider.len() implies !((#[trigger] wider[i]).1 is Null) by {
        if i < schema.len() {
            assert(wider.take(schema.len() as int)[i] == wider[i]);
        }
    }
    assert forall|r: int| 0 <= r < after.len() implies aligned_row(wider, #[trigger] after[r]) by {
        if r < rows.len() {
            let p = padded(wider, rows[r]);
            assert(aligned_row(schema, rows[r]));
            assert forall|i: int| 0 <= i < wider.len() implies {
                &&& (#[trigger] p[i]).0 == wider[i].0
                &&& (p[i].1 is Null || p[i].1.shape() == wider[i].1.shape())
            } by {
                if i < schema.len() {
                    assert(wider.take(schema.len() as int)[i] == wider[i]);
                }
            }
        }
    }
}

/// The flat table: the columns found so far, in the order in which they were
/// first seen, each with the first value seen in it, and one row for each
/// classification with a cell for every column.
#[derive(Debug)]
pub struct Flat {
    pub workflow_id: String,
    pub workflow_name: String,
    columns: FlatRow,
    rows: Vec<FlatRow>,
}

impl Flat {
    /// The id of the workflow.
    pub closed spec fn id(&self) -> Seq<char> {
        self.workflow_id@
    }

    /// The name of the workflow.
    pub closed spec fn name(&self) -> Seq<char> {
        self.workflow_name@
    }

    /// The columns: key and first value seen, in the order of first appearance.
    pub closed spec fn schema(&self) -> Entries {
        row_entries(self.columns)
    }

    /// The rows, in the order in which they were added.
    pub closed spec fn cells(&self) -> Seq<Entries> {
        Seq::new(self.rows@.len(), |r: int| row_entries(self.rows@[r]))
    }

    /// The invariant of the table: distinct columns, each with a shape, and in
    /// every row a cell for every column, empty or of the column's shape.
    pub open spec fn wf(&self) -> bool {
        table_wf(self.schema(), self.cells())
    }

    /// A table without columns and rows.
    pub fn new(workflow_id: &str, workflow_name: &str) -> (table: Flat)
        ensures
            table.wf(),
            table.id() == workflow_id@,
            table.name() == workflow_name@,
            table.schema() == Seq::<(Seq<char>, FieldView)>::empty(),
            table.cells() == Seq::<Entries>::empty(),
    {
        let table = Flat {
            workflow_id: String::from_str(workflow_id),
            workflow_name: String::from_str(workflow_name),
            columns: row_new(),
            rows: Vec::new(),
        };
        assert(table.cells() =~= Seq::<Entries>::empty());
        table
    }

    /// The number of columns.
    pub fn column_count(&self) -> (n: usize)
        ensures
            n == self.schema().len(),
    {
        row_len(&self.columns)
    }

    /// The number of rows.
    pub fn row_count(&self) -> (n: usize)
        ensures
            n == self.cells().len(),
    {
        self.rows.len()
    }

    /// The columns: key and first value seen, in the order of first appearance.
    pub fn columns(&self) -> (columns: &FlatRow)
        ensures
            row_entries(*columns) == self.schema(),
    {
        &self.columns
    }

    /// The column at `index`: its key, and the first value seen in it.
    pub fn column(&self, index: usize) -> (r: (&String, &FlatField))
        requires
            index < self.schema().len(),
        ensures
            (r.0@, r.1@) == self.schema()[index as int],
    {
        row_entry(&self.columns, index)
    }

    /// The value that the row at `row` holds in the column at `column`.
    pub fn cell(&self, row: usize, column: usize) -> (r: &FlatField)
        requires
            self.wf(),
            row < self.cells().len(),
            column < self.schema().len(),
        ensures
            r@ == self.cells()[row as int][column as int].1,
    {
        assert(aligned_row(self.schema(), self.cells()[row as int]));
        row_entry(&self.rows[row], column).1
    }

    /// The row at `index`.
    pub fn row(&self, index: usize) -> (row: &FlatRow)
        requires
            index < self.cells().len(),
        ensures
            row_entries(*row) == self.cells()[index as int],
    {
        &self.rows[index]
    }

    /// The first cell of `row` that holds a value of another shape than the
    /// column of its key, if there is one.
    fn find_clash(&self, row: &FlatRow) -> (r: Option<usize>)
        ensures
            match r {
                Some(i) => first_clash(self.schema(), row_entries(*row), i as int),
                None => !has_clash(self.schema(), row_entries(*row)),
            },
    {
        let n = row_len(row);
        let mut i: usize = 0;
        while i < n
            invariant
                i <= n,
                n == row_entries(*row).len(),
                forall|j: int| 0 <= j < i ==> !clashes(self.schema(), #[trigger] row_entries(*row)[j]),
            decreases n - i,
        {
            let (key, field) = row_entry(row, i);
            match row_get(&self.columns, key.as_str()) {
                Some(first_seen) => {
                    if field.shape() != Shape::Null && field.shape() != first_seen.shape() {
                        return Some(i);
                    }
                },
                None => {},
            }
            i += 1;
        }
        None
    }

    /// Adds to the columns each key of `row` that holds a value and is no
    /// column yet.
    fn grow_columns(&mut self, row: &FlatRow)
        requires
            distinct_keys(old(self).schema()),
        ensures
            final(self).schema() == grown(
                old(self).schema(),
                row_entries(*row),
                row_entries(*row).len(),
            ),
            final(self).cells() == old(self).cells(),
            final(self).id() == old(self).id(),
            final(self).name() == old(self).name(),
    {
        let n = row_len(row);
        let mut i: usize = 0;
        while i < n
            invariant
                i <= n,
                n == row_entries(*row).len(),
                self.schema() == grown(old(self).schema(), row_entries(*row), i as nat),
                self.cells() == old(self).cells(),
                self.id() == old(self).id(),
                self.name() == old(self).name(),
            decreases n - i,
        {
            let (key, field) = row_entry(row, i);
            if field.shape() != Shape::Null && row_index_of(&self.columns, key.as_str()).is_none() {
                let ghost cells = self.cells();
                row_insert(&mut self.columns, key.clone(), field.duplicate());
                assert(self.cells() =~= cells);
            }
            i += 1;
        }
    }

    /// Gives every stored row a `Null` cell under each column that it has no
    /// cell for.
    fn pad_rows(&mut self, Ghost(before): Ghost<Entries>)
        requires
            distinct_keys(old(self).schema()),
            before.len() <= old(self).schema().len(),
            old(self).schema().take(before.len() as int) == before,
            forall|r: int|
                0 <= r < old(self).cells().len() ==> aligned_row(
                    before,
                    #[trigger] old(self).cells()[r],
                ),
        ensures
            final(self).schema() == old(self).schema(),
            final(self).cells() == padded_all(old(self).schema(), old(self).cells()),
            final(self).id() == old(self).id(),
            final(self).name() == old(self).name(),
    {
        let count = self.rows.len();
        let ghost schema = self.schema();
        let mut r: usize = 0;
        while r < count
            invariant
                r <= count,
                count == self.rows.len(),
                count == old(self).cells().len(),
                schema == self.schema(),
                schema == old(self).schema(),
                distinct_keys(schema),
                before.len() <= schema.len(),
                schema.take(before.len() as int) == before,
                forall|k: int|
                    0 <= k < count ==> aligned_row(before, #[trigger] old(self).cells()[k]),
                forall|k: int|
                    0 <= k < r ==> row_entries(#[trigger] self.rows@[k]) == padded(
                        schema,
                        old(self).cells()[k],
                    ),
                forall|k: int|
                    r <= k < count ==> row_entries(#[trigger] self.rows@[k]) == old(
                        self,
                    ).cells()[k],
                self.id() == old(self).id(),
                self.name() == old(self).name(),
            decreases count - r,
        {
            let ghost stored = old(self).cells()[r as int];
            assert(aligned_row(before, stored));
            assert forall|i: int| 0 <= i < stored.len() implies (#[trigger] stored[i]).0
                == schema[i].0 by {
                assert(schema.take(before.len() as int)[i] == schema[i]);
            }
            pad_row(&mut self.rows[r], &self.columns);
            r += 1;
        }
        assert(self.cells() =~= padded_all(old(self).schema(), old(self).cells()));
    }

    /// Adds a row. Each key of the row that holds a value and is no column
    /// yet becomes a column, last in order, and every row stored before gets
    /// a `Null` cell under it. The row is stored with a cell for every
    /// column, in the order of the columns: its own value, or `Null` where it
    /// has none. A row that holds a value of another shape than the column of
    /// its key is refused, named by the first such key, and the table stays
    /// as it was.
    pub fn add_row(&mut self, row: &FlatRow) -> (r: Result<(), ShapeMismatch>)
        requires
            old(self).wf(),
        ensures
            final(self).wf(),
            final(self).id() == old(self).id(),
            final(self).name() == old(self).name(),
            match r {
                Ok(()) => {
                    &&& !has_clash(old(self).schema(), row_entries(*row))
                    &&& final(self).schema() == grown(
                        old(self).schema(),
                        row_entries(*row),
                        row_entries(*row).len(),
                    )
                    &&& final(self).cells() == padded_all(
                        final(self).schema(),
                        old(self).cells(),
                    ).push(fitted(final(self).schema(), row_entries(*row)))
                },
                Err(e) => {
                    &&& has_clash(old(self).schema(), row_entries(*row))
                    &&& e.column@ == row_entries(*row)[clash_index(
                        old(self).schema(),
                        row_entries(*row),
                    )].0
                    &&& final(self).schema() == old(self).schema()
                    &&& final(self).cells() == old(self).cells()
                },
            },
    {
        match self.find_clash(row) {
            Some(i) => {
                proof {
                    lemma_first_clash_unique(self.schema(), row_entries(*row), i as int);
                }
                return Err(ShapeMismatch { column: row_entry(row, i).0.clone() });
            },
            None => {},
        }
        let ghost before = self.schema();
        let ghost stored = self.cells();
        let ghost incoming = row_entries(*row);
        self.grow_columns(row);
        proof {
            lemma_grown(before, incoming, incoming.len());
        }
        self.pad_rows(Ghost(before));
        let fit = fit_row(row, &self.columns);
        self.rows.push(fit);
        proof {
            let schema = self.schema();
            assert(self.cells() =~= padded_all(schema, stored).push(fitted(schema, incoming)));
            lemma_add_row_aligned(before, stored, incoming);
        }
        Ok(())
    }
}

/// Gives a stored row a `Null` cell under each column that it has no cell for.
fn pad_row(row: &mut FlatRow, columns: &FlatRow)
    requires
        distinct_keys(row_entries(*columns)),
        row_entries(*old(row)).len() <= row_entries(*columns).len(),
        forall|i: int|
            0 <= i < row_entries(*old(row)).len() ==> (#[trigger] row_entries(*old(row))[i]).0
                == row_entries(*columns)[i].0,
    ensures
        row_entries(*final(row)) == padded(row_entries(*columns), row_entries(*old(row))),
{
    let ghost schema = row_entries(*columns);
    let ghost stored = row_entries(*row);
    let width = row_len(columns);
    let mut j: usize = row_len(row);
    assert(padded(schema, stored).take(j as int) =~= stored);
    while j < width
        invariant
            stored.len() <= j <= width,
            width == schema.len(),
            schema == row_entries(*columns),
            distinct_keys(schema),
            forall|i: int| 0 <= i < stored.len() ==> (#[trigger] stored[i]).0 == schema[i].0,
            row_entries(*row) == padded(schema, stored).take(j as int),
        decreases width - j,
    {
        let key = row_entry(columns, j).0;
        let ghost now = row_entries(*row);
        assert(!has_key(now, key@)) by {
            assert forall|k: int| 0 <= k < now.len() implies (#[trigger] now[k]).0 != key@ by {
                assert(now[k] == padded(schema, stored)[k]);
                if k < stored.len() {
                    assert(stored[k].0 == schema[k].0);
                }
                assert(schema[k].0 != schema[j as int].0);
            }
        }
        row_insert(row, key.clone(), FlatField::Null);
        assert(row_entries(*row) =~= padded(schema, stored).take(j + 1));
        j += 1;
    }
    assert(padded(schema, stored).take(width as int) =~= padded(schema, stored));
}

/// A row as it is stored under the columns: a cell for every column, in the
/// order of the columns.
fn fit_row(row: &FlatRow, columns: &FlatRow) -> (fit: FlatRow)
    requires
        distinct_keys(row_entries(*columns)),
    ensures
        row_entries(fit) == fitted(row_entries(*columns), row_entries(*row)),
{
    let ghost schema = row_entries(*columns);
    let ghost target = fitted(schema, row_entries(*row));
    let width = row_len(columns);
    let mut fit = row_new();
    let mut j: usize = 0;
    assert(target.take(0) =~= row_entries(fit));
    while j < width
        invariant
            j <= width,
            width == schema.len(),
            schema == row_entries(*columns),
            distinct_keys(schema),
            target == fitted(schema, row_entries(*row)),
            row_entries(fit) == target.take(j as int),
        decreases width - j,
    {
        let key = row_entry(columns, j).0;
        let value = match row_get(row, key.as_str()) {
            Some(value) => value.duplicate(),
            None => FlatField::Null,
        };
        let ghost now = row_entries(fit);
        assert(!has_key(now, key@)) by {
            assert forall|k: int| 0 <= k < now.len() implies (#[trigger] now[k]).0 != key@ by {
                assert(now[k] == target[k]);
                assert(schema[k].0 != schema[j as int].0);
            }
        }
        row_insert(&mut fit, key.clone(), value);
        assert(row_entries(fit) =~= target.take(j + 1));
        j += 1;
    }
    assert(target.take(width as int) =~= target);
    fit
}

/// The header of the written table, for the first `count` columns.
pub open spec fn header_of(schema: Entries, count: nat) -> Seq<Seq<char>>
    decreases count,
{
    if count == 0 || count > schema.len() {
        Seq::empty()
    } else {
        header_of(schema, (count - 1) as nat) + header_names(
            schema[count - 1].0,
            schema[count - 1].1.shape(),
        )
    }
}

/// What a row writes under a column of the given shape: the texts of its
/// value where it has one of that shape, else as many empty texts as the
/// column is wide.
pub open spec fn column_texts(shape: Shape, value: Option<FieldView>) -> Seq<Seq<char>> {
    if value is Some && value.unwrap().shape() == shape {
        value_texts(value.unwrap())
    } else {
        blanks(width(shape))
    }
}

/// What a row writes under the first `count` columns.
pub open spec fn record_of(schema: Entries, row: Entries, count: nat) -> Seq<Seq<char>>
    decreases count,
{
    if count == 0 || count > schema.len() {
        Seq::empty()
    } else {
        record_of(schema, row, (count - 1) as nat) + column_texts(
            schema[count - 1].1.shape(),
            lookup(row, schema[count - 1].0),
        )
    }
}

impl Flat {
    /// The header of the written table: the names of every column, in the
    /// order of the columns.
    pub fn csv_header(&self) -> (output: Vec<String>)
        ensures
            strings_view(output@) == header_of(self.schema(), self.schema().len()),
    {
        let mut output: Vec<String> = Vec::new();
        let n = row_len(&self.columns);
        let mut i: usize = 0;
        assert(strings_view(output@) =~= header_of(self.schema(), 0));
        while i < n
            invariant
                i <= n,
                n == self.schema().len(),
                strings_view(output@) == header_of(self.schema(), i as nat),
            decreases n - i,
        {
            let (column, first_seen) = row_entry(&self.columns, i);
            push_header_names(&mut output, column, first_seen.shape());
            i += 1;
        }
        output
    }

    /// What a row writes under the columns of the table, in their order:
    /// under each the texts of the value that the row holds under the key of
    /// the column, or empty texts.
    pub fn csv_row(&self, row: &FlatRow) -> (output: Vec<String>)
        ensures
            strings_view(output@) == record_of(
                self.schema(),
                row_entries(*row),
                self.schema().len(),
            ),
    {
        let mut output: Vec<String> = Vec::new();
        let n = row_len(&self.columns);
        let mut i: usize = 0;
        assert(strings_view(output@) =~= record_of(self.schema(), row_entries(*row), 0));
        while i < n
            invariant
                i <= n,
                n == self.schema().len(),
                strings_view(output@) == record_of(self.schema(), row_entries(*row), i as nat),
            decreases n - i,
        {
            let (column, first_seen) = row_entry(&self.columns, i);
            let shape = first_seen.shape();
            match row_get(row, column.as_str()) {
                Some(value) => {
                    if value.shape() == shape {
                        push_value_texts(&mut output, value);
                    } else {
                        push_blanks(&mut output, shape_width(shape));
                    }
                },
                None => {
                    push_blanks(&mut output, shape_width(shape));
                },
            }
            i += 1;
        }
        output
    }

    /// The written table: its header, then what each row writes, in the order
    /// of the rows.
    pub fn csv_records(&self) -> (output: Vec<Vec<String>>)
        ensures
            output@.len() == self.cells().len() + 1,
            strings_view(output@[0]@) == header_of(self.schema(), self.schema().len()),
            forall|r: int|
                0 <= r < self.cells().len() ==> strings_view((#[trigger] output@[r + 1])@)
                    == record_of(self.schema(), self.cells()[r], self.schema().len()),
    {
        let mut output: Vec<Vec<String>> = Vec::new();
        output.push(self.csv_header());
        let mut r: usize = 0;
        while r < self.rows.len()
            invariant
                r <= self.rows.len(),
                output@.len() == r + 1,
                strings_view(output@[0]@) == header_of(self.schema(), self.schema().len()),
                forall|k: int|
                    0 <= k < r ==> strings_view((#[trigger] output@[k + 1])@) == record_of(
                        self.schema(),
                        self.cells()[k],
                        self.schema().len(),
                    ),
            decreases self.rows.len() - r,
        {
            output.push(self.csv_row(&self.rows[r]));
            r += 1;
        }
        output
    }
}

/// The subject of a row: the value of its `subject_id` cell, where that is a
/// `Same` value.
pub open spec fn subject_of(row: Entries) -> Option<Seq<char>> {
    match lookup(row, "subject_id"@) {
        Some(FieldView::Same { value }) => Some(value),
        _ => None,
    }
}

/// The keys of the entries, in their order.
pub open spec fn keys_of(e: Entries) -> Seq<Seq<char>> {
    Seq::new(e.len(), |i: int| e[i].0)
}

/// What a row is sorted by: its subject, or the empty text where it has none.
pub open spec fn sort_key(row: Entries) -> Seq<char> {
    match subject_of(row) {
        Some(id) => id,
        None => Seq::empty(),
    }
}

/// The subjects of the rows, in the order of the rows.
pub open spec fn subjects_of(cells: Seq<Entries>) -> Seq<Option<Seq<char>>> {
    Seq::new(cells.len(), |i: int| subject_of(cells[i]))
}

/// What rows are sorted by, as a function of the row.
pub open spec fn by_subject() -> spec_fn(Entries) -> Seq<char> {
    |row: Entries| sort_key(row)
}

/// The rows of a subject among the first `count` rows, in their order.
pub open spec fn rows_of(cells: Seq<Entries>, subject: Seq<char>, count: nat) -> Seq<Entries>
    decreases count,
{
    if count == 0 || count > cells.len() {
        Seq::empty()
    } else if subject_of(cells[count - 1]) == Some(subject) {
        rows_of(cells, subject, (count - 1) as nat).push(cells[count - 1])
    } else {
        rows_of(cells, subject, (count - 1) as nat)
    }
}

/// Whether the groups are the rows grouped by subject: the subjects in
/// strictly ascending order, each with all its rows in the order of the
/// table, at least one, and every subject of a row among them.
pub open spec fn is_grouped(cells: Seq<Entries>, groups: Groups) -> bool {
    &&& forall|a: int, b: int|
        0 <= a < b < groups.len() ==> lex_lt((#[trigger] groups[a]).0, (#[trigger] groups[b]).0)
    &&& forall|g: int|
        0 <= g < groups.len() ==> {
            &&& (#[trigger] groups[g]).1.len() > 0
            &&& groups[g].1 == rows_of(cells, groups[g].0, cells.len())
        }
    &&& forall|i: int|
        0 <= i < cells.len() ==> has_subject(groups, #[trigger] subject_of(cells[i]).unwrap())
}

/// The rows at the given positions, in the order of the positions.
pub open spec fn picked(cells: Seq<Entries>, positions: Seq<usize>) -> Seq<Entries> {
    Seq::new(positions.len(), |k: int| cells[positions[k] as int])
}

/// The first `count` groups, each subject with all its rows.
pub open spec fn grouped_first(cells: Seq<Entries>, groups: Seq<Group>, count: nat) -> Groups {
    Seq::new(
        count,
        |g: int| (groups[g].subject_id@, rows_of(cells, groups[g].subject_id@, cells.len())),
    )
}

/// Positions that ascend, that all hold rows of a subject and that leave out
/// none of its rows among the first `count` pick the rows of the subject.
pub proof fn lemma_picked_rows(
    cells: Seq<Entries>,
    subject: Seq<char>,
    positions: Seq<usize>,
    count: nat,
)
    requires
        count <= cells.len(),
        forall|a: int, b: int|
            0 <= a < b < positions.len() ==> (#[trigger] positions[a]) < (#[trigger] positions[b]),
        forall|k: int|
            0 <= k < positions.len() ==> (#[trigger] positions[k]) < count && subject_of(
                cells[positions[k] as int],
            ) == Some(subject),
        forall|i: int|
            0 <= i < count && subject_of(#[trigger] cells[i]) == Some(subject) ==> exists|k: int|
                0 <= k < positions.len() && (#[trigger] positions[k]) == i,
    ensures
        picked(cells, positions) == rows_of(cells, subject, count),
    decreases count,
{
    if count == 0 {
        if positions.len() > 0 {
            assert(positions[0] < count);
        }
        assert(picked(cells, positions) =~= Seq::<Entries>::empty());
    } else {
        let last = count - 1;
        if subject_of(cells[last]) == Some(subject) {
            let k = choose|k: int| 0 <= k < positions.len() && (#[trigger] positions[k]) == last;
            if k < positions.len() - 1 {
                assert(positions[k] < positions[positions.len() - 1]);
                assert(positions[positions.len() - 1] < count);
            }
            let front = positions.drop_last();
            assert forall|j: int| 0 <= j < front.len() implies (#[trigger] front[j]) < last
                && subject_of(cells[front[j] as int]) == Some(subject) by {
                assert(front[j] == positions[j]);
                assert(positions[j] < positions[k]);
            }
            assert forall|i: int|
                0 <= i < last && subject_of(#[trigger] cells[i]) == Some(subject) implies exists|
                j: int,
            | 0 <= j < front.len() && (#[trigger] front[j]) == i by {
                let j = choose|j: int| 0 <= j < positions.len() && (#[trigger] positions[j]) == i;
                assert(front[j] == i);
            }
            assert forall|a: int, b: int| 0 <= a < b < front.len() implies (#[trigger] front[a])
                < (#[trigger] front[b]) by {
                assert(front[a] == positions[a] && front[b] == positions[b]);
            }
            lemma_picked_rows(cells, subject, front, last as nat);
            assert(picked(cells, positions) =~= picked(cells, front).push(cells[last]));
        } else {
            assert forall|j: int| 0 <= j < positions.len() implies (#[trigger] positions[j])
                < last by {
                assert(positions[j] < count);
            }
            lemma_picked_rows(cells, subject, positions, last as nat);
        }
    }
}

/// In a grouping by subject the positions of a group pick all the rows of
/// its subject, and there is at least one.
pub proof fn lemma_group_rows(cells: Seq<Entries>, groups: Seq<Group>, g: int, count: nat)
    requires
        count == cells.len(),
        is_grouping(subjects_of(cells), count, groups),
        0 <= g < groups.len(),
    ensures
        picked(cells, groups[g].rows@) == rows_of(cells, groups[g].subject_id@, count),
        rows_of(cells, groups[g].subject_id@, count).len() > 0,
{
    let subjects = subjects_of(cells);
    let subject = groups[g].subject_id@;
    let positions = groups[g].rows@;
    assert(group_ok(subjects, count, groups[g]));
    assert forall|k: int| 0 <= k < positions.len() implies (#[trigger] positions[k]) < count
        && subject_of(cells[positions[k] as int]) == Some(subject) by {
        assert(subjects[positions[k] as int] == Some(subject));
    }
    assert forall|i: int|
        0 <= i < count && subject_of(#[trigger] cells[i]) == Some(subject) implies exists|k: int|
        0 <= k < positions.len() && (#[trigger] positions[k]) == i by {
        assert(row_grouped(subjects, groups, i));
        let (at, k) = choose|at: int, k: int|
            {
                &&& 0 <= at < groups.len()
                &&& 0 <= k < groups[at].rows@.len()
                &&& (#[trigger] groups[at].rows@[k]) == i
                &&& subjects[i] == Some(groups[at].subject_id@)
            };
        if at < g {
            assert(lex_lt(groups[at].subject_id@, groups[g].subject_id@));
        } else if g < at {
            assert(lex_lt(groups[g].subject_id@, groups[at].subject_id@));
        }
        assert(positions[k] == i);
    }
    lemma_picked_rows(cells, subject, positions, count);
    assert(picked(cells, positions).len() == positions.len());
}

impl Flat {
    /// The subject of the row at `index`.
    fn subject(&self, index: usize) -> (r: Option<&String>)
        requires
            index < self.cells().len(),
        ensures
            match r {
                Some(id) => subject_of(self.cells()[index as int]) == Some(id@),
                None => subject_of(self.cells()[index as int]) is None,
            },
    {
        match row_get(&self.rows[index], "subject_id") {
            Some(FlatField::Same { value }) => Some(value),
            _ => None,
        }
    }

    /// The subjects of the rows, in the order of the rows.
    fn subjects(&self) -> (ids: Vec<Option<&String>>)
        ensures
            ids_view(ids@) == subjects_of(self.cells()),
    {
        let mut ids: Vec<Option<&String>> = Vec::new();
        let mut i: usize = 0;
        while i < self.rows.len()
            invariant
                i <= self.rows.len(),
                ids@.len() == i,
                forall|k: int|
                    0 <= k < i ==> #[trigger] ids_view(ids@)[k] == subject_of(self.cells()[k]),
            decreases self.rows.len() - i,
        {
            let ghost before = ids_view(ids@);
            let id = self.subject(i);
            ids.push(id);
            assert forall|k: int| 0 <= k < i + 1 implies #[trigger] ids_view(ids@)[k]
                == subject_of(self.cells()[k]) by {
                if k < i {
                    assert(ids_view(ids@)[k] == before[k]);
                }
            }
            i += 1;
        }
        assert(ids_view(ids@) =~= subjects_of(self.cells()));
        ids
    }

    /// Where the rows of each subject stand: the subjects in ascending order,
    /// each with the positions of its rows in the order of the table. A row
    /// whose `subject_id` cell is no `Same` value is a defect of the schema,
    /// named by the position of the first such row.
    pub fn grouping(&self) -> (r: Result<Vec<Group>, NoSubject>)
        ensures
            match r {
                Ok(groups) => {
                    &&& forall|i: int|
                        0 <= i < self.cells().len() ==> subject_of(#[trigger] self.cells()[i])
                            is Some
                    &&& is_grouping(subjects_of(self.cells()), self.cells().len(), groups@)
                },
                Err(e) => first_without_subject(subjects_of(self.cells()), e.row as int),
            },
    {
        let ids = self.subjects();
        let r = group_subjects(&ids);
        proof {
            let subjects = subjects_of(self.cells());
            assert(ids_view(ids@).len() == ids@.len());
            assert(subjects.len() == self.cells().len());
            if r is Ok {
                assert forall|i: int| 0 <= i < self.cells().len() implies subject_of(
                    #[trigger] self.cells()[i],
                ) is Some by {
                    assert(ids_view(ids@)[i] is Some);
                    assert(subjects[i] == subject_of(self.cells()[i]));
                }
            }
        }
        r
    }

    /// Copies of the rows at the given positions, in the order of the
    /// positions.
    fn rows_at(&self, positions: &Vec<usize>) -> (rows: Vec<FlatRow>)
        requires
            forall|k: int| 0 <= k < positions@.len() ==> (#[trigger] positions@[k]) < self.cells().len(),
        ensures
            rows_entries(rows@) == picked(self.cells(), positions@),
    {
        let mut rows: Vec<FlatRow> = Vec::new();
        let mut k: usize = 0;
        while k < positions.len()
            invariant
                k <= positions.len(),
                rows@.len() == k,
                forall|j: int|
                    0 <= j < positions@.len() ==> (#[trigger] positions@[j]) < self.cells().len(),
                forall|j: int|
                    0 <= j < k ==> row_entries(#[trigger] rows@[j]) == self.cells()[positions@[j] as int],
            decreases positions.len() - k,
        {
            assert(positions@[k as int] < self.cells().len());
            rows.push(row_clone(&self.rows[positions[k]]));
            k += 1;
        }
        assert(rows_entries(rows@) =~= picked(self.cells(), positions@));
        rows
    }

    /// The rows grouped by subject: the subjects in ascending order, each
    /// with its rows in the order of the table. A row whose `subject_id` cell
    /// is no `Same` value is a defect of the schema, named by the position of
    /// the first such row.
    pub fn group(&self) -> (r: Result<Grouped, NoSubject>)
        ensures
            match r {
                Ok(grouped) => {
                    &&& forall|i: int|
                        0 <= i < self.cells().len() ==> subject_of(#[trigger] self.cells()[i])
                            is Some
                    &&& is_grouped(self.cells(), grouped_entries(grouped))
                },
                Err(e) => first_without_subject(subjects_of(self.cells()), e.row as int),
            },
    {
        let groups = match self.grouping() {
            Ok(groups) => groups,
            Err(e) => {
                return Err(e);
            },
        };
        let ghost cells = self.cells();
        let ghost subjects = subjects_of(cells);
        let mut grouped = grouped_new();
        let mut g: usize = 0;
        while g < groups.len()
            invariant
                g <= groups.len(),
                cells == self.cells(),
                subjects == subjects_of(cells),
                is_grouping(subjects, cells.len(), groups@),
                grouped_entries(grouped) == grouped_first(cells, groups@, g as nat),
            decreases groups.len() - g,
        {
            let ghost before = grouped_entries(grouped);
            assert(group_ok(subjects, cells.len(), groups@[g as int]));
            let rows = self.rows_at(&groups[g].rows);
            proof {
                lemma_group_rows(cells, groups@, g as int, cells.len());
                assert forall|j: int| 0 <= j < before.len() implies (#[trigger] before[j]).0
                    != groups@[g as int].subject_id@ by {
                    assert(lex_lt(groups@[j].subject_id@, groups@[g as int].subject_id@));
                }
            }
            grouped_insert(&mut grouped, groups[g].subject_id.clone(), rows);
            assert(grouped_entries(grouped) =~= grouped_first(cells, groups@, (g + 1) as nat));
            g += 1;
        }
        proof {
            let all = grouped_entries(grouped);
            assert forall|i: int| 0 <= i < cells.len() implies has_subject(
                all,
                #[trigger] subject_of(cells[i]).unwrap(),
            ) by {
                assert(row_grouped(subjects, groups@, i));
                let (at, k) = choose|at: int, k: int|
                    {
                        &&& 0 <= at < groups@.len()
                        &&& 0 <= k < groups@[at].rows@.len()
                        &&& (#[trigger] groups@[at].rows@[k]) == i
                        &&& subjects[i] == Some(groups@[at].subject_id@)
                    };
                assert(all[at].0 == groups@[at].subject_id@);
            }
            assert forall|a: int| 0 <= a < all.len() implies (#[trigger] all[a]).1.len() > 0 by {
                assert(group_ok(subjects, cells.len(), groups@[a]));
                lemma_group_rows(cells, groups@, a, cells.len());
            }
        }
        Ok(grouped)
    }

    /// Whether the subject of the row at `a` comes before or equals that of
    /// the row at `b`.
    fn subject_le(&self, a: usize, b: usize) -> (r: bool)
        requires
            a < self.cells().len(),
            b < self.cells().len(),
        ensures
            r == lex_le(sort_key(self.cells()[a as int]), sort_key(self.cells()[b as int])),
    {
        proof {
            reveal_strlit("");
            assert(""@ =~= Seq::<char>::empty());
        }
        let x = match self.subject(a) {
            Some(id) => id.as_str(),
            None => "",
        };
        let y = match self.subject(b) {
            Some(id) => id.as_str(),
            None => "",
        };
        str_le(x, y)
    }

    /// Sorts the rows by subject, in ascending order; rows of one subject
    /// keep the order in which they stood. A row without a subject counts as
    /// one with the empty subject.
    pub fn sort(&mut self)
        requires
            old(self).wf(),
        ensures
            final(self).wf(),
            final(self).id() == old(self).id(),
            final(self).name() == old(self).name(),
            final(self).schema() == old(self).schema(),
            final(self).cells() == sorted_first(old(self).cells(), old(self).cells().len(), by_subject()),
            ordered(final(self).cells(), by_subject()),
            final(self).cells().to_multiset() == old(self).cells().to_multiset(),
    {
        let ghost given = self.cells();
        let n = self.rows.len();
        let mut i: usize = 0;
        assert(self.cells() =~= sorted_first(given, 0, by_subject()) + given.subrange(0, n as int));
        while i < n
            invariant
                i <= n,
                n == given.len(),
                n == self.rows.len(),
                given == old(self).cells(),
                self.id() == old(self).id(),
                self.name() == old(self).name(),
                self.schema() == old(self).schema(),
                self.cells() == sorted_first(given, i as nat, by_subject()) + given.subrange(i as int, n as int),
            decreases n - i,
        {
            let ghost done = sorted_first(given, i as nat, by_subject());
            let ghost rest = given.subrange(i as int, n as int);
            proof {
                lemma_sorted_first(given, i as nat, by_subject());
            }
            // where the row at `i` belongs among the rows before it
            let mut p: usize = i;
            while p > 0 && !self.subject_le(p - 1, i)
                invariant
                    p <= i < n,
                    n == self.rows.len(),
                    done.len() == i,
                    self.cells() == done + rest,
                    rest.len() == n - i,
                    rest[0] == given[i as int],
                    forall|j: int|
                        p <= j < i ==> !lex_le(sort_key(#[trigger] done[j]), sort_key(given[i as int])),
                decreases p,
            {
                assert(self.cells()[p - 1] == done[p - 1]);
                assert(self.cells()[i as int] == rest[0]);
                p -= 1;
            }
            proof {
                if p > 0 {
                    assert(self.cells()[p - 1] == done[p - 1]);
                    assert(self.cells()[i as int] == rest[0]);
                }
                lemma_placed_at(done, given[i as int], p as int, by_subject());
            }
            let ghost before = self.cells();
            let row = self.rows.remove(i);
            self.rows.insert(p, row);
            assert(self.cells() =~= before.remove(i as int).insert(p as int, before[i as int]));
            assert(self.cells() =~= sorted_first(given, (i + 1) as nat, by_subject()) + given.subrange(
                i + 1,
                n as int,
            ));
            i += 1;
        }
        proof {
            lemma_sorted_first(given, n as nat, by_subject());
            assert(given.take(n as int) =~= given);
            assert(self.cells() =~= sorted_first(given, n as nat, by_subject()));
            // every row is one of the rows that were given, which fit the schema
            assert forall|r: int| 0 <= r < self.cells().len() implies aligned_row(
                self.schema(),
                #[trigger] self.cells()[r],
            ) by {
                let row = self.cells()[r];
                self.cells().to_multiset_ensures();
                assert(self.cells().contains(row));
                assert(given.to_multiset().count(row) > 0);
                given.to_multiset_ensures();
                assert(given.contains(row));
                let w = choose|w: int| 0 <= w < given.len() && given[w] == row;
                assert(aligned_row(self.schema(), given[w]));
            }
        }
    }
}


} // verus!
