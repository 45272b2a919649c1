//! Reconciliation of a flat table: one row for each subject, one value for
//! each column, each found by the rule of the column's shape.

use crate::flat::{distinct_keys, keys_of, subjects_of, Entries, FieldView, Flat, FlatField, Shape};
use crate::order::{first_without_subject, group_ok, is_grouping, Group, NoSubject};
use crate::reconcile_fields::{
    box_cell, cells_view, lemma_count_none, length_cell, list_cell, noop_cell, point_cell,
    reconcile_boxes,
    reconcile_lengths, reconcile_list, reconcile_noop, reconcile_points, reconcile_same,
    reconcile_select, reconcile_text, same_cell, select_cell, text_cell,
};
use crate::reconciled::{reconciled_names, reconciled_texts, ReconciledView};
pub use crate::reconciled::{ReconciledField, ReconciledFlag, ReconciledResult};
use crate::text::strings_view;
use indexmap::IndexMap;
use vstd::prelude::*;

verus! {

/// The reconciled value of a column of the given shape and label, for the
/// values that the classifications of one subject hold in it, with the verb
/// and the noun of the notes that count. A column without a shape is taken
/// as an administrative one.
pub open spec fn column_cell(
    shape: Shape,
    label: Seq<char>,
    cells: Seq<FieldView>,
    distance: nat,
    verb: Seq<char>,
    noun: Seq<char>,
) -> ReconciledView {
    match shape {
        Shape::Box_ => box_cell(cells, verb, noun),
        Shape::Length => length_cell(cells, label, verb, noun),
        Shape::List => list_cell(cells),
        Shape::Point => point_cell(cells, verb, noun),
        Shape::Same => same_cell(cells),
        Shape::Select => select_cell(cells),
        Shape::Text => text_cell(cells, distance),
        _ => noop_cell(cells),
    }
}

/// Whether a value is the reconciled value of the column for the given
/// values, in whatever words its notes count.
pub open spec fn reconciles(
    value: ReconciledView,
    shape: Shape,
    label: Seq<char>,
    cells: Seq<FieldView>,
    distance: nat,
) -> bool {
    exists|verb: Seq<char>, noun: Seq<char>| value == column_cell(shape, label, cells, distance, verb, noun)
}

/// A subject without a value in a column still gets a reconciled value: where
/// every classification of the subject leaves the column empty, the flag is
/// `Empty` or, in a column that is voted on, `AllBlank`.
pub proof fn lemma_empty_group(
    shape: Shape,
    label: Seq<char>,
    cells: Seq<FieldView>,
    distance: nat,
    verb: Seq<char>,
    noun: Seq<char>,
)
    requires
        forall|i: int| 0 <= i < cells.len() ==> (#[trigger] cells[i]) is Null,
    ensures
        column_cell(shape, label, cells, distance, verb, noun).result().flag == if shape == Shape::List
            || shape == Shape::Select || shape == Shape::Text {
            ReconciledFlag::AllBlank
        } else {
            ReconciledFlag::Empty
        },
{
    assert forall|i: int| 0 <= i < cells.len() implies (#[trigger] cells[i]).shape()
        == Shape::Null by {
        assert(cells[i] is Null);
    }
    lemma_count_none(cells, Shape::Box_);
    lemma_count_none(cells, Shape::Length);
    lemma_count_none(cells, Shape::List);
    lemma_count_none(cells, Shape::NoOp);
    lemma_count_none(cells, Shape::Point);
    lemma_count_none(cells, Shape::Same);
    lemma_count_none(cells, Shape::Select);
    lemma_count_none(cells, Shape::Text);
}

/// Reconciles the values that the classifications of one subject hold in a
/// column of the given shape and label, by the rule of the shape.
pub fn reconcile_column(
    shape: Shape,
    label: &str,
    fields: &Vec<&FlatField>,
    max_distance: usize,
) -> (r: ReconciledField)
    ensures
        reconciles(r@, shape, label@, cells_view(fields@), max_distance as nat),
{
    let ghost distance = max_distance as nat;
    let ghost none = Seq::<char>::empty();
    let r = match shape {
        Shape::Box_ => {
            let r = reconcile_boxes(fields);
            proof {
                let (verb, noun) = choose|verb: Seq<char>, noun: Seq<char>|
                    r@ == box_cell(cells_view(fields@), verb, noun);
                assert(r@ == column_cell(shape, label@, cells_view(fields@), distance, verb, noun));
            }
            r
        },
        Shape::Length => {
            let r = reconcile_lengths(fields, label);
            proof {
                let (verb, noun) = choose|verb: Seq<char>, noun: Seq<char>|
                    r@ == length_cell(cells_view(fields@), label@, verb, noun);
                assert(r@ == column_cell(shape, label@, cells_view(fields@), distance, verb, noun));
            }
            r
        },
        Shape::Point => {
            let r = reconcile_points(fields);
            proof {
                let (verb, noun) = choose|verb: Seq<char>, noun: Seq<char>|
                    r@ == point_cell(cells_view(fields@), verb, noun);
                assert(r@ == column_cell(shape, label@, cells_view(fields@), distance, verb, noun));
            }
            r
        },
        Shape::List => {
            let r = reconcile_list(fields);
            assert(r@ == column_cell(shape, label@, cells_view(fields@), distance, none, none));
            r
        },
        Shape::Same => {
            let r = reconcile_same(fields);
            assert(r@ == column_cell(shape, label@, cells_view(fields@), distance, none, none));
            r
        },
        Shape::Select => {
            let r = reconcile_select(fields);
            assert(r@ == column_cell(shape, label@, cells_view(fields@), distance, none, none));
            r
        },
        Shape::Text => {
            let r = reconcile_text(fields, max_distance);
            assert(r@ == column_cell(shape, label@, cells_view(fields@), distance, none, none));
            r
        },
        _ => {
            let r = reconcile_noop(fields);
            assert(r@ == column_cell(shape, label@, cells_view(fields@), distance, none, none));
            r
        },
    };
    r
}

/// One reconciled row: column key to reconciled value, in the order of the
/// columns.
pub type ReconciledRow = IndexMap<String, ReconciledField>;

/// The entries of a reconciled row as the verifier sees them: key and value,
/// in order.
pub type ReconciledEntries = Seq<(Seq<char>, ReconciledView)>;

/// What a reconciled row holds: its key-value pairs in the map's order.
pub uninterp spec fn reconciled_entries(row: IndexMap<String, ReconciledField>) -> ReconciledEntries;

/// Whether some entry has this key.
pub open spec fn holds_key(e: ReconciledEntries, key: Seq<char>) -> bool {
    exists|i: int| 0 <= i < e.len() && (#[trigger] e[i]).0 == key
}

/// The keys of the entries, in their order.
pub open spec fn names_of(e: ReconciledEntries) -> Seq<Seq<char>> {
    Seq::new(e.len(), |c: int| e[c].0)
}

/// The values of the entries, in their order.
pub open spec fn values_of(e: ReconciledEntries) -> Seq<ReconciledView> {
    Seq::new(e.len(), |c: int| e[c].1)
}

/// A new, empty reconciled row (`IndexMap::new`).
#[verifier::external_body]
pub(crate) fn reconciled_new() -> (row: ReconciledRow)
    ensures
        reconciled_entries(row) == Seq::<(Seq<char>, ReconciledView)>::empty(),
{
    IndexMap::new()
}

/// The number of entries of a reconciled row (`IndexMap::len`).
#[verifier::external_body]
pub(crate) fn reconciled_len(row: &ReconciledRow) -> (n: usize)
    ensures
        n == reconciled_entries(*row).len(),
{
    row.len()
}

/// The entry of a reconciled row at a position (`IndexMap::get_index`): its
/// key and its value.
#[verifier::external_body]
pub(crate) fn reconciled_entry(row: &ReconciledRow, index: usize) -> (r: (&String, &ReconciledField))
    requires
        index < reconciled_entries(*row).len(),
    ensures
        (r.0@, r.1@) == reconciled_entries(*row)[index as int],
{
    row.get_index(index).unwrap()
}

/// Sets a key that the reconciled row does not hold yet (`IndexMap::insert`):
/// the new key goes last.
#[verifier::external_body]
pub(crate) fn reconciled_insert(row: &mut ReconciledRow, key: String, value: ReconciledField)
    requires
        !holds_key(reconciled_entries(*old(row)), key@),
    ensures
        reconciled_entries(*final(row)) == reconciled_entries(*old(row)).push((key@, value@)),
{
    row.insert(key, value);
}

/// The values that the rows at the given positions hold in the column at
/// `column`.
pub open spec fn column_values(cells: Seq<Entries>, rows: Seq<usize>, column: int) -> Seq<
    FieldView,
> {
    Seq::new(rows.len(), |k: int| cells[rows[k] as int][column].1)
}

/// Whether the reconciled rows are those of the table `cells` under the
/// columns `schema`, grouped into `groups`: one row for each group, and in it
/// one entry for each column, in the order of the columns: the key of the
/// column, and the value reconciled from the values that the rows of the
/// group hold in the column.
pub open spec fn reconciled_from(
    table: Seq<ReconciledEntries>,
    schema: Entries,
    cells: Seq<Entries>,
    groups: Seq<Group>,
    distance: nat,
) -> bool {
    &&& table.len() == groups.len()
    &&& forall|g: int| 0 <= g < table.len() ==> names_of(#[trigger] table[g]) == keys_of(schema)
    &&& forall|g: int, c: int|
        0 <= g < table.len() && 0 <= c < schema.len() ==> reconciles(
            (#[trigger] table[g][c]).1,
            schema[c].1.shape(),
            schema[c].0,
            column_values(cells, groups[g].rows@, c),
            distance,
        )
}

/// The reconciled table: the columns of the flat table, the subjects in
/// ascending order, and for each subject one reconciled value for each
/// column. It carries the distance within which free texts count as near
/// matches.
#[derive(Debug)]
pub struct Reconciled {
    pub workflow_id: String,
    pub workflow_name: String,
    fuzzy_distance: usize,
    columns: Vec<String>,
    groups: Vec<Group>,
    rows: Vec<ReconciledRow>,
}

impl Reconciled {
    /// The id of the workflow.
    pub closed spec fn id(&self) -> Seq<char> {
        self.workflow_id@
    }

    /// The name of the workflow.
    pub closed spec fn name(&self) -> Seq<char> {
        self.workflow_name@
    }

    /// The keys of the columns, in their order.
    pub closed spec fn keys(&self) -> Seq<Seq<char>> {
        strings_view(self.columns@)
    }

    /// The subjects, each with the positions of its rows in the flat table.
    pub closed spec fn subjects(&self) -> Seq<Group> {
        self.groups@
    }

    /// The reconciled rows: one for each subject, and in it one entry for
    /// each column.
    pub closed spec fn entries(&self) -> Seq<ReconciledEntries> {
        Seq::new(self.rows@.len(), |g: int| reconciled_entries(self.rows@[g]))
    }

    /// The reconciled values: one row for each subject, one value for each
    /// column.
    pub open spec fn table(&self) -> Seq<Seq<ReconciledView>> {
        Seq::new(self.entries().len(), |g: int| values_of(self.entries()[g]))
    }

    /// The number of edits within which free texts count as near matches.
    pub closed spec fn distance(&self) -> nat {
        self.fuzzy_distance as nat
    }

    /// The number of edits within which free texts count as near matches.
    pub fn fuzzy_distance(&self) -> (d: usize)
        ensures
            d == self.distance(),
    {
        self.fuzzy_distance
    }

    /// Sets the number of edits within which free texts count as near
    /// matches in the reconciliations to come. Zero, the distance of a new
    /// table, compares texts as they are.
    pub fn set_fuzzy_distance(&mut self, max_distance: usize)
        ensures
            final(self).distance() == max_distance,
            final(self).id() == old(self).id(),
            final(self).name() == old(self).name(),
            final(self).keys() == old(self).keys(),
            final(self).subjects() == old(self).subjects(),
            final(self).table() == old(self).table(),
    {
        self.fuzzy_distance = max_distance;
    }

    /// A reconciled table without columns, subjects and rows, which compares
    /// free texts as they are.
    pub fn new(workflow_id: &str, workflow_name: &str) -> (r: Reconciled)
        ensures
            r.id() == workflow_id@,
            r.name() == workflow_name@,
            r.distance() == 0,
            r.keys() == Seq::<Seq<char>>::empty(),
            r.subjects() == Seq::<Group>::empty(),
            r.entries() == Seq::<Seq<(Seq<char>, ReconciledView)>>::empty(),
            r.table() == Seq::<Seq<ReconciledView>>::empty(),
    {
        let r = Reconciled {
            workflow_id: String::from_str(workflow_id),
            workflow_name: String::from_str(workflow_name),
            fuzzy_distance: 0,
            columns: Vec::new(),
            groups: Vec::new(),
            rows: Vec::new(),
        };
        assert(r.keys() =~= Seq::<Seq<char>>::empty());
        assert(r.entries() =~= Seq::<Seq<(Seq<char>, ReconciledView)>>::empty());
        assert(r.table() =~= Seq::<Seq<ReconciledView>>::empty());
        r
    }

    /// The keys of the columns, in their order.
    pub fn columns(&self) -> (r: &Vec<String>)
        ensures
            strings_view(r@) == self.keys(),
    {
        &self.columns
    }

    /// The subjects in ascending order, each with the positions of its rows
    /// in the flat table.
    pub fn groups(&self) -> (r: &Vec<Group>)
        ensures
            r@ == self.subjects(),
    {
        &self.groups
    }

    /// The number of reconciled rows, one for each subject.
    pub fn row_count(&self) -> (n: usize)
        ensures
            n == self.entries().len(),
    {
        self.rows.len()
    }

    /// The reconciled row of the subject at `index`: an entry for each
    /// column.
    pub fn row(&self, index: usize) -> (r: &ReconciledRow)
        requires
            index < self.entries().len(),
        ensures
            reconciled_entries(*r) == self.entries()[index as int],
    {
        &self.rows[index]
    }
}

/// The values that the rows of a group hold in one column.
fn gather<'a>(flat: &'a Flat, rows: &Vec<usize>, column: usize) -> (r: Vec<&'a FlatField>)
    requires
        flat.wf(),
        column < flat.schema().len(),
        forall|k: int| 0 <= k < rows@.len() ==> (#[trigger] rows@[k]) < flat.cells().len(),
    ensures
        cells_view(r@) == column_values(flat.cells(), rows@, column as int),
{
    let mut r: Vec<&'a FlatField> = Vec::new();
    let mut k: usize = 0;
    while k < rows.len()
        invariant
            k <= rows.len(),
            flat.wf(),
            column < flat.schema().len(),
            forall|j: int| 0 <= j < rows@.len() ==> (#[trigger] rows@[j]) < flat.cells().len(),
            r@.len() == k,
            forall|j: int|
                0 <= j < k ==> (#[trigger] r@[j])@ == flat.cells()[rows@[j] as int][column as int].1,
        decreases rows.len() - k,
    {
        r.push(flat.cell(rows[k], column));
        k += 1;
    }
    assert(cells_view(r@) =~= column_values(flat.cells(), rows@, column as int));
    r
}

/// The reconciled row of one group: an entry for each column.
fn reconcile_group(flat: &Flat, rows: &Vec<usize>, max_distance: usize) -> (r: ReconciledRow)
    requires
        flat.wf(),
        forall|k: int| 0 <= k < rows@.len() ==> (#[trigger] rows@[k]) < flat.cells().len(),
    ensures
        names_of(reconciled_entries(r)) == keys_of(flat.schema()),
        forall|c: int|
            0 <= c < flat.schema().len() ==> reconciles(
                (#[trigger] reconciled_entries(r)[c]).1,
                flat.schema()[c].1.shape(),
                flat.schema()[c].0,
                column_values(flat.cells(), rows@, c),
                max_distance as nat,
            ),
{
    let width = flat.column_count();
    let mut r = reconciled_new();
    let mut c: usize = 0;
    while c < width
        invariant
            c <= width,
            width == flat.schema().len(),
            flat.wf(),
            forall|k: int| 0 <= k < rows@.len() ==> (#[trigger] rows@[k]) < flat.cells().len(),
            reconciled_entries(r).len() == c,
            forall|j: int| 0 <= j < c ==> (#[trigger] reconciled_entries(r)[j]).0 == flat.schema()[j].0,
            forall|j: int|
                0 <= j < c ==> reconciles(
                    (#[trigger] reconciled_entries(r)[j]).1,
                    flat.schema()[j].1.shape(),
                    flat.schema()[j].0,
                    column_values(flat.cells(), rows@, j),
                    max_distance as nat,
                ),
        decreases width - c,
    {
        let (key, first_seen) = flat.column(c);
        let fields = gather(flat, rows, c);
        let field = reconcile_column(first_seen.shape(), key.as_str(), &fields, max_distance);
        assert(!holds_key(reconciled_entries(r), key@)) by {
            assert(distinct_keys(flat.schema()));
            assert forall|j: int| 0 <= j < c implies (#[trigger] reconciled_entries(r)[j]).0
                != key@ by {
                assert(flat.schema()[j].0 != flat.schema()[c as int].0);
            }
        }
        reconciled_insert(&mut r, key.clone(), field);
        c += 1;
    }
    assert(names_of(reconciled_entries(r)) =~= keys_of(flat.schema()));
    r
}

impl Reconciled {
    /// Reconciles a flat table: the rows are grouped by subject, and for each
    /// subject, in ascending order, each column gets the one value that the
    /// rule of its shape finds in the rows of the subject. A row that has no
    /// subject is a defect of the schema, and the reconciled table stays as
    /// it was.
    pub fn reconcile(&mut self, flat: &Flat) -> (r: Result<(), NoSubject>)
        requires
            flat.wf(),
        ensures
            final(self).id() == old(self).id(),
            final(self).name() == old(self).name(),
            final(self).distance() == old(self).distance(),
            match r {
                Ok(()) => {
                    &&& final(self).keys() == keys_of(flat.schema())
                    &&& is_grouping(
                        subjects_of(flat.cells()),
                        flat.cells().len(),
                        final(self).subjects(),
                    )
                    &&& reconciled_from(
                        final(self).entries(),
                        flat.schema(),
                        flat.cells(),
                        final(self).subjects(),
                        old(self).distance(),
                    )
                },
                Err(e) => {
                    &&& first_without_subject(subjects_of(flat.cells()), e.row as int)
                    &&& final(self).keys() == old(self).keys()
                    &&& final(self).subjects() == old(self).subjects()
                    &&& final(self).entries() == old(self).entries()
                },
            },
    {
        let groups = match flat.grouping() {
            Ok(groups) => groups,
            Err(e) => {
                return Err(e);
            },
        };
        let width = flat.column_count();
        let mut columns: Vec<String> = Vec::new();
        let mut c: usize = 0;
        while c < width
            invariant
                c <= width,
                width == flat.schema().len(),
                columns@.len() == c,
                forall|j: int| 0 <= j < c ==> (#[trigger] columns@[j])@ == flat.schema()[j].0,
            decreases width - c,
        {
            columns.push(flat.column(c).0.clone());
            c += 1;
        }
        let mut rows: Vec<ReconciledRow> = Vec::new();
        let mut g: usize = 0;
        while g < groups.len()
            invariant
                g <= groups.len(),
                flat.wf(),
                self.distance() == old(self).distance(),
                is_grouping(subjects_of(flat.cells()), flat.cells().len(), groups@),
                rows@.len() == g,
                forall|j: int|
                    0 <= j < g ==> names_of(reconciled_entries(#[trigger] rows@[j])) == keys_of(
                        flat.schema(),
                    ),
                forall|j: int, k: int|
                    0 <= j < g && 0 <= k < flat.schema().len() ==> reconciles(
                        (#[trigger] reconciled_entries(rows@[j])[k]).1,
                        flat.schema()[k].1.shape(),
                        flat.schema()[k].0,
                        column_values(flat.cells(), groups@[j].rows@, k),
                        self.distance(),
                    ),
            decreases groups.len() - g,
        {
            assert(group_ok(subjects_of(flat.cells()), flat.cells().len(), groups@[g as int]));
            rows.push(reconcile_group(flat, &groups[g].rows, self.fuzzy_distance));
            g += 1;
        }
        self.columns = columns;
        self.groups = groups;
        self.rows = rows;
        assert(self.keys() =~= keys_of(flat.schema()));
        assert(reconciled_from(
            self.entries(),
            flat.schema(),
            flat.cells(),
            self.subjects(),
            self.distance(),
        )) by {
            let table = self.entries();
            assert forall|j: int, k: int|
                0 <= j < table.len() && 0 <= k < flat.schema().len() implies reconciles(
                (#[trigger] table[j][k]).1,
                flat.schema()[k].1.shape(),
                flat.schema()[k].0,
                column_values(flat.cells(), self.subjects()[j].rows@, k),
                self.distance(),
            ) by {
                assert(table[j][k] == reconciled_entries(self.rows@[j])[k]);
            }
        }
        Ok(())
    }
}

/// The header that a reconciled row gives under the first `count` columns:
/// the names of each of its values.
pub open spec fn reconciled_header(keys: Seq<Seq<char>>, row: Seq<ReconciledView>, count: nat) -> Seq<
    Seq<char>,
>
    decreases count,
{
    if count == 0 || count > row.len() || count > keys.len() {
        Seq::empty()
    } else {
        reconciled_header(keys, row, (count - 1) as nat) + reconciled_names(
            keys[count - 1],
            row[count - 1],
        )
    }
}

/// What the first `count` values of a reconciled row write.
pub open spec fn reconciled_record(row: Seq<ReconciledView>, count: nat) -> Seq<Seq<char>>
    decreases count,
{
    if count == 0 || count > row.len() {
        Seq::empty()
    } else {
        reconciled_record(row, (count - 1) as nat) + reconciled_texts(row[count - 1])
    }
}

/// What a reconciled row writes: for each of its values its numbers and
/// texts, the name of its flag and its notes.
pub fn reconciled_row(row: &ReconciledRow) -> (output: Vec<String>)
    ensures
        strings_view(output@) == reconciled_record(
            values_of(reconciled_entries(*row)),
            reconciled_entries(*row).len(),
        ),
{
    let ghost values = values_of(reconciled_entries(*row));
    let width = reconciled_len(row);
    let mut output: Vec<String> = Vec::new();
    let mut c: usize = 0;
    assert(strings_view(output@) =~= reconciled_record(values, 0));
    while c < width
        invariant
            c <= width,
            width == reconciled_entries(*row).len(),
            values == values_of(reconciled_entries(*row)),
            strings_view(output@) == reconciled_record(values, c as nat),
        decreases width - c,
    {
        assert(values[c as int] == reconciled_entries(*row)[c as int].1);
        reconciled_entry(row, c).1.push_texts(&mut output);
        c += 1;
    }
    output
}

impl Reconciled {
    /// The written table: the header that the first row gives under the
    /// columns, then what each row writes, in the order of the subjects.
    /// Without rows it holds nothing.
    pub fn csv_records(&self) -> (output: Vec<Vec<String>>)
        ensures
            output@.len() == if self.table().len() == 0 {
                0
            } else {
                self.table().len() + 1
            },
            output@.len() > 0 ==> strings_view(output@[0]@) == reconciled_header(
                self.keys(),
                self.table()[0],
                if self.table()[0].len() <= self.keys().len() {
                    self.table()[0].len()
                } else {
                    self.keys().len()
                },
            ),
            forall|g: int|
                0 <= g < self.table().len() ==> strings_view((#[trigger] output@[g + 1])@)
                    == reconciled_record(self.table()[g], self.table()[g].len()),
    {
        let mut output: Vec<Vec<String>> = Vec::new();
        let n = self.rows.len();
        if n == 0 {
            return output;
        }
        let first = &self.rows[0];
        let ghost values = values_of(reconciled_entries(*first));
        let width = if reconciled_len(first) <= self.columns.len() {
            reconciled_len(first)
        } else {
            self.columns.len()
        };
        let mut header: Vec<String> = Vec::new();
        let mut c: usize = 0;
        assert(self.table()[0] =~= values);
        assert(strings_view(header@) =~= reconciled_header(self.keys(), self.table()[0], 0));
        while c < width
            invariant
                c <= width,
                width <= reconciled_entries(*first).len(),
                width <= self.columns@.len(),
                values == values_of(reconciled_entries(*first)),
                self.table()[0] == values,
                strings_view(header@) == reconciled_header(self.keys(), self.table()[0], c as nat),
            decreases width - c,
        {
            assert(values[c as int] == reconciled_entries(*first)[c as int].1);
            reconciled_entry(first, c).1.push_names(&self.columns[c], &mut header);
            c += 1;
        }
        output.push(header);
        let mut g: usize = 0;
        while g < n
            invariant
                g <= n == self.rows@.len(),
                output@.len() == g + 1,
                strings_view(output@[0]@) == reconciled_header(
                    self.keys(),
                    self.table()[0],
                    width as nat,
                ),
                forall|k: int|
                    0 <= k < g ==> strings_view((#[trigger] output@[k + 1])@)
                        == reconciled_record(self.table()[k], self.table()[k].len()),
            decreases n - g,
        {
            assert(self.table()[g as int] =~= values_of(reconciled_entries(self.rows@[g as int])));
            output.push(reconciled_row(&self.rows[g]));
            g += 1;
        }
        output
    }
}

} // verus!
