//! A table of classifications that is built cell by cell: the columns by
//! name, in the order in which they were first named, and the rows by
//! position, each with a cell for every column.

use crate::flat::{
    clashes, distinct_keys, has_key, header_of, is_first, key_index, lemma_first_unique, Entries,
    FieldView, FlatField, Shape, ShapeMismatch,
};
use crate::order::{
    first_without_subject, group_subjects, ids_view, is_grouping, lemma_placed_at,
    lemma_sorted_first, ordered, sorted_first, Group, NoSubject,
};
use crate::output::{
    blanks, header_names, push_blanks, push_header_names, push_value_texts, shape_width,
    value_texts, width,
};
use crate::text::{join, joined, lex_le, str_eq, str_le, strings_view};
use vstd::prelude::*;

verus! {

/// The name of the column that holds the subject of a row.
pub const SUBJECT_ID: &'static str = "subject_id";

/// The value of a cell.
pub type UnreconciledField = FlatField;

/// One row: a cell for every column, in the order of the columns.
pub type UnreconciledRow = Vec<UnreconciledField>;

/// The columns: the name of each with the first value that was set in it.
pub type UnreconciledNames = Vec<(String, UnreconciledField)>;

/// The table: the workflow that it belongs to, its columns and its rows.
#[derive(Debug, Default)]
pub struct Unreconciled {
    pub workflow_id: String,
    pub workflow_name: String,
    pub names: UnreconciledNames,
    pub rows: Vec<UnreconciledRow>,
}

/// The columns as the contracts see them: name and first value.
pub open spec fn names_view(names: Seq<(String, FlatField)>) -> Entries {
    Seq::new(names.len(), |i: int| (names[i].0@, names[i].1@))
}

/// A row as the contracts see it.
pub open spec fn row_view(row: Seq<FlatField>) -> Seq<FieldView> {
    Seq::new(row.len(), |i: int| row[i]@)
}

/// The rows as the contracts see them.
pub open spec fn rows_view(rows: Seq<Vec<FlatField>>) -> Seq<Seq<FieldView>> {
    Seq::new(rows.len(), |r: int| row_view(rows[r]@))
}

/// A row with an empty cell behind its cells.
pub open spec fn widened(rows: Seq<Seq<FieldView>>) -> Seq<Seq<FieldView>> {
    Seq::new(rows.len(), |r: int| rows[r].push(FieldView::Null))
}

/// So many empty cells.
pub open spec fn empty_row(width: nat) -> Seq<FieldView> {
    Seq::new(width, |i: int| FieldView::Null)
}

/// Whether a row fits the columns: a cell for every column, each cell empty
/// or of the shape of its column.
pub open spec fn fits(columns: Entries, row: Seq<FieldView>) -> bool {
    &&& row.len() == columns.len()
    &&& forall|c: int|
        0 <= c < row.len() ==> (#[trigger] row[c]) is Null || row[c].shape()
            == columns[c].1.shape()
}

impl Unreconciled {
    /// The columns: name and first value, in the order of first naming.
    pub open spec fn columns(self) -> Entries {
        names_view(self.names@)
    }

    /// The rows, each as the values of its cells.
    pub open spec fn cells(self) -> Seq<Seq<FieldView>> {
        rows_view(self.rows@)
    }

    /// The invariant of the table: no two columns have one name, and every
    /// row has a cell for every column, empty or of the shape of the column.
    pub open spec fn wf(self) -> bool {
        &&& distinct_keys(self.columns())
        &&& forall|r: int| 0 <= r < self.cells().len() ==> fits(self.columns(), #[trigger] self.cells()[r])
    }

    /// A table without columns and rows.
    pub fn new(workflow_id: &str, workflow_name: &str) -> (table: Self)
        ensures
            table.wf(),
            table.workflow_id@ == workflow_id@,
            table.workflow_name@ == workflow_name@,
            table.columns() == Seq::<(Seq<char>, FieldView)>::empty(),
            table.cells() == Seq::<Seq<FieldView>>::empty(),
    {
        let table = Unreconciled {
            workflow_id: String::from_str(workflow_id),
            workflow_name: String::from_str(workflow_name),
            names: Vec::new(),
            rows: Vec::new(),
        };
        assert(table.columns() =~= Seq::<(Seq<char>, FieldView)>::empty());
        assert(table.cells() =~= Seq::<Seq<FieldView>>::empty());
        table
    }

    /// Where the column of a name stands, if there is one.
    pub fn find_column(&self, name: &str) -> (r: Option<usize>)
        ensures
            match r {
                Some(index) => is_first(self.columns(), name@, index as int),
                None => !has_key(self.columns(), name@),
            },
    {
        let mut i: usize = 0;
        while i < self.names.len()
            invariant
                i <= self.names.len(),
                forall|k: int| 0 <= k < i ==> (#[trigger] self.columns()[k]).0 != name@,
            decreases self.names.len() - i,
        {
            if str_eq(self.names[i].0.as_str(), name) {
                return Some(i);
            }
            i += 1;
        }
        None
    }

    /// Adds a row with an empty cell for every column.
    pub fn add_row(&mut self)
        requires
            old(self).wf(),
        ensures
            final(self).wf(),
            final(self).workflow_id == old(self).workflow_id,
            final(self).workflow_name == old(self).workflow_name,
            final(self).columns() == old(self).columns(),
            final(self).cells() == old(self).cells().push(empty_row(old(self).columns().len())),
    {
        let mut row: UnreconciledRow = Vec::new();
        let mut i: usize = 0;
        while i < self.names.len()
            invariant
                i <= self.names.len(),
                row@.len() == i,
                forall|k: int| 0 <= k < i ==> (#[trigger] row@[k])@ == FieldView::Null,
            decreases self.names.len() - i,
        {
            row.push(FlatField::Null);
            i += 1;
        }
        assert(row_view(row@) =~= empty_row(self.columns().len()));
        self.rows.push(row);
        assert(self.cells() =~= old(self).cells().push(empty_row(old(self).columns().len())));
    }

    /// Adds a column behind the others, with `field` as its first value, and
    /// gives every row an empty cell in it. A name that is a column already
    /// changes nothing.
    pub fn add_column(&mut self, name: &str, field: &UnreconciledField)
        requires
            old(self).wf(),
        ensures
            final(self).wf(),
            final(self).workflow_id == old(self).workflow_id,
            final(self).workflow_name == old(self).workflow_name,
            has_key(old(self).columns(), name@) ==> {
                &&& final(self).columns() == old(self).columns()
                &&& final(self).cells() == old(self).cells()
            },
            !has_key(old(self).columns(), name@) ==> {
                &&& final(self).columns() == old(self).columns().push((name@, field@))
                &&& final(self).cells() == widened(old(self).cells())
            },
    {
        if self.find_column(name).is_some() {
            return ;
        }
        let ghost before = self.columns();
        self.names.push((String::from_str(name), field.duplicate()));
        assert(self.columns() =~= before.push((name@, field@)));
        assert(distinct_keys(self.columns())) by {
            let after = self.columns();
            assert forall|a: int, b: int| 0 <= a < b < after.len() implies (#[trigger] after[a]).0
                != (#[trigger] after[b]).0 by {
                if b < before.len() {
                    assert(before[a].0 != before[b].0);
                } else {
                    assert(before[a].0 != name@);
                }
            }
        }
        let n = self.rows.len();
        let mut r: usize = 0;
        while r < n
            invariant
                r <= n == self.rows@.len(),
                n == old(self).rows@.len(),
                self.columns() == before.push((name@, field@)),
                self.workflow_id == old(self).workflow_id,
                self.workflow_name == old(self).workflow_name,
                forall|k: int|
                    0 <= k < r ==> row_view((#[trigger] self.rows@[k])@) == old(
                        self,
                    ).cells()[k].push(FieldView::Null),
                forall|k: int| r <= k < n ==> #[trigger] self.rows@[k] == old(self).rows@[k],
            decreases n - r,
        {
            let ghost row = row_view(self.rows@[r as int]@);
            self.rows[r].push(FlatField::Null);
            assert(row_view(self.rows@[r as int]@) =~= row.push(FieldView::Null));
            r += 1;
        }
        assert(self.cells() =~= widened(old(self).cells()));
        assert forall|k: int| 0 <= k < self.cells().len() implies fits(
            self.columns(),
            #[trigger] self.cells()[k],
        ) by {
            assert(fits(before, old(self).cells()[k]));
            let row = self.cells()[k];
            assert forall|c: int| 0 <= c < row.len() implies (#[trigger] row[c]) is Null
                || row[c].shape() == self.columns()[c].1.shape() by {
                if c < before.len() {
                    assert(row[c] == old(self).cells()[k][c]);
                }
            }
        }
    }

    /// Sets the cell of the last row in the column of a name. A name that is
    /// no column yet becomes one first, with `field` as its first value.
    /// Without a row there is no cell to set. A value of another shape than
    /// the column of the name is refused, and the table stays as it was.
    pub fn set_cell(&mut self, name: &str, field: UnreconciledField) -> (r: Result<
        (),
        ShapeMismatch,
    >)
        requires
            old(self).wf(),
        ensures
            final(self).wf(),
            final(self).workflow_id == old(self).workflow_id,
            final(self).workflow_name == old(self).workflow_name,
            match r {
                Err(e) => {
                    &&& clashes(old(self).columns(), (name@, field@))
                    &&& e.column@ == name@
                    &&& final(self).columns() == old(self).columns()
                    &&& final(self).cells() == old(self).cells()
                },
                Ok(()) => {
                    &&& !clashes(old(self).columns(), (name@, field@))
                    &&& final(self).columns() == if has_key(old(self).columns(), name@) {
                        old(self).columns()
                    } else {
                        old(self).columns().push((name@, field@))
                    }
                    &&& final(self).cells() == set_last(
                        if has_key(old(self).columns(), name@) {
                            old(self).cells()
                        } else {
                            widened(old(self).cells())
                        },
                        key_index(final(self).columns(), name@),
                        field@,
                    )
                },
            },
    {
        match self.find_column(name) {
            Some(known) => {
                proof {
                    lemma_first_unique(self.columns(), name@, known as int);
                }
                if field.shape() != Shape::Null && self.names[known].1.shape() != field.shape() {
                    return Err(ShapeMismatch { column: String::from_str(name) });
                }
            },
            None => {},
        }
        self.add_column(name, &field);
        let ghost wide = self.cells();
        match self.find_column(name) {
            Some(index) => {
                proof {
                    lemma_first_unique(self.columns(), name@, index as int);
                }
                let n = self.rows.len();
                if n > 0 {
                    assert(fits(self.columns(), wide[n - 1]));
                    let ghost row = row_view(self.rows@[n - 1]@);
                    self.rows[n - 1].set(index, field);
                    assert(row_view(self.rows@[n - 1]@) =~= row.update(index as int, field@));
                    assert(self.cells() =~= set_last(wide, index as int, field@));
                    assert forall|r: int| 0 <= r < self.cells().len() implies fits(
                        self.columns(),
                        #[trigger] self.cells()[r],
                    ) by {
                        assert(fits(self.columns(), wide[r]));
                    }
                }
            },
            None => {
                assert(has_key(self.columns(), name@)) by {
                    if !has_key(old(self).columns(), name@) {
                        assert(self.columns()[old(self).columns().len() as int].0 == name@);
                    } else {
                        let w = choose|w: int|
                            0 <= w < old(self).columns().len() && (#[trigger] old(
                                self,
                            ).columns()[w]).0 == name@;
                        assert(self.columns()[w].0 == name@);
                    }
                }
            },
        }
        Ok(())
    }
}

/// The rows with the cell of the last row at `index` set to `value`; the
/// rows as they are where there is none.
pub open spec fn set_last(rows: Seq<Seq<FieldView>>, index: int, value: FieldView) -> Seq<
    Seq<FieldView>,
> {
    if rows.len() == 0 {
        rows
    } else {
        rows.update(rows.len() - 1, rows.last().update(index, value))
    }
}

/// The subject of a row whose subjects stand in the column at `column`: the
/// value of its cell there, where that is a `Same` value.
pub open spec fn subject_at(row: Seq<FieldView>, column: Option<int>) -> Option<Seq<char>> {
    match column {
        Some(c) => if 0 <= c < row.len() {
            match row[c] {
                FieldView::Same { value } => Some(value),
                _ => None,
            }
        } else {
            None
        },
        None => None,
    }
}

/// Where the column of the subjects stands, if there is one.
pub open spec fn subject_column(columns: Entries) -> Option<int> {
    if has_key(columns, "subject_id"@) {
        Some(key_index(columns, "subject_id"@))
    } else {
        None
    }
}

/// The subjects of the rows, in the order of the rows.
pub open spec fn subjects_of(rows: Seq<Seq<FieldView>>, column: Option<int>) -> Seq<
    Option<Seq<char>>,
> {
    Seq::new(rows.len(), |r: int| subject_at(rows[r], column))
}

/// What rows are sorted by: the subject of the row, or the empty text where
/// it has none.
pub open spec fn by_column(column: Option<int>) -> spec_fn(Vec<FlatField>) -> Seq<char> {
    |row: Vec<FlatField>|
        match subject_at(row_view(row@), column) {
            Some(id) => id,
            None => Seq::empty(),
        }
}

/// The subject of a row, if it has one.
fn row_subject(row: &UnreconciledRow, column: Option<usize>) -> (r: Option<&String>)
    ensures
        match r {
            Some(id) => subject_at(
                row_view(row@),
                match column {
                    Some(c) => Some(c as int),
                    None => None,
                },
            ) == Some(id@),
            None => subject_at(
                row_view(row@),
                match column {
                    Some(c) => Some(c as int),
                    None => None,
                },
            ) is None,
        },
{
    match column {
        Some(c) => {
            if c < row.len() {
                match &row[c] {
                    FlatField::Same { value } => Some(value),
                    _ => None,
                }
            } else {
                None
            }
        },
        None => None,
    }
}

/// The column as the contracts see it.
pub open spec fn column_view(column: Option<usize>) -> Option<int> {
    match column {
        Some(c) => Some(c as int),
        None => None,
    }
}

/// Whether the subject of the row at `a` comes before or equals that of the
/// row at `b`.
fn subject_le(rows: &Vec<UnreconciledRow>, column: Option<usize>, a: usize, b: usize) -> (r: bool)
    requires
        a < rows.len(),
        b < rows.len(),
    ensures
        r == lex_le(
            by_column(column_view(column))(rows@[a as int]),
            by_column(column_view(column))(rows@[b as int]),
        ),
{
    proof {
        reveal_strlit("");
        assert(""@ =~= Seq::<char>::empty());
    }
    let x = match row_subject(&rows[a], column) {
        Some(id) => id.as_str(),
        None => "",
    };
    let y = match row_subject(&rows[b], column) {
        Some(id) => id.as_str(),
        None => "",
    };
    str_le(x, y)
}

impl Unreconciled {
    /// Sorts the rows by subject, in ascending order; rows of one subject
    /// keep the order in which they stood. A row without a subject counts as
    /// one with the empty subject, and so does every row of a table that has
    /// no column of subjects.
    pub fn sort_rows(&mut self)
        requires
            old(self).wf(),
        ensures
            final(self).wf(),
            final(self).workflow_id == old(self).workflow_id,
            final(self).workflow_name == old(self).workflow_name,
            final(self).names == old(self).names,
            final(self).rows@ == sorted_first(
                old(self).rows@,
                old(self).rows@.len(),
                by_column(subject_column(old(self).columns())),
            ),
            ordered(final(self).rows@, by_column(subject_column(old(self).columns()))),
            final(self).rows@.to_multiset() == old(self).rows@.to_multiset(),
    {
        let column = self.find_column("subject_id");
        proof {
            if column is Some {
                lemma_first_unique(self.columns(), "subject_id"@, column.unwrap() as int);
            }
        }
        let ghost key = by_column(subject_column(self.columns()));
        assert(key == by_column(column_view(column)));
        let ghost given = self.rows@;
        let n = self.rows.len();
        let mut i: usize = 0;
        assert(self.rows@ =~= sorted_first(given, 0, key) + given.subrange(0, n as int));
        while i < n
            invariant
                i <= n,
                n == given.len(),
                n == self.rows.len(),
                key == by_column(column_view(column)),
                self.workflow_id == old(self).workflow_id,
                self.workflow_name == old(self).workflow_name,
                self.names == old(self).names,
                self.rows@ == sorted_first(given, i as nat, key) + given.subrange(
                    i as int,
                    n as int,
                ),
            decreases n - i,
        {
            let ghost done = sorted_first(given, i as nat, key);
            let ghost rest = given.subrange(i as int, n as int);
            proof {
                lemma_sorted_first(given, i as nat, key);
            }
            // where the row at `i` belongs among the rows before it
            let mut p: usize = i;
            while p > 0 && !subject_le(&self.rows, column, p - 1, i)
                invariant
                    p <= i < n,
                    n == self.rows.len(),
                    done.len() == i,
                    key == by_column(column_view(column)),
                    self.rows@ == done + rest,
                    rest.len() == n - i,
                    rest[0] == given[i as int],
                    forall|j: int|
                        p <= j < i ==> !lex_le(key(#[trigger] done[j]), key(given[i as int])),
                decreases p,
            {
                assert(self.rows@[p - 1] == done[p - 1]);
                assert(self.rows@[i as int] == rest[0]);
                p -= 1;
            }
            proof {
                if p > 0 {
                    assert(self.rows@[p - 1] == done[p - 1]);
                    assert(self.rows@[i as int] == rest[0]);
                }
                lemma_placed_at(done, given[i as int], p as int, key);
            }
            let ghost before = self.rows@;
            let row = self.rows.remove(i);
            self.rows.insert(p, row);
            assert(self.rows@ =~= before.remove(i as int).insert(p as int, before[i as int]));
            assert(self.rows@ =~= sorted_first(given, (i + 1) as nat, key) + given.subrange(
                i + 1,
                n as int,
            ));
            i += 1;
        }
        proof {
            lemma_sorted_first(given, n as nat, key);
            assert(given.take(n as int) =~= given);
            assert(self.rows@ =~= sorted_first(given, n as nat, key));
            // every row is one of the rows that were given, which fit the columns
            assert forall|r: int| 0 <= r < self.cells().len() implies fits(
                self.columns(),
                #[trigger] self.cells()[r],
            ) by {
                let row = self.rows@[r];
                self.rows@.to_multiset_ensures();
                assert(self.rows@.contains(row));
                assert(given.to_multiset().count(row) > 0);
                given.to_multiset_ensures();
                assert(given.contains(row));
                let w = choose|w: int| 0 <= w < given.len() && given[w] == row;
                assert(fits(self.columns(), old(self).cells()[w]));
            }
        }
    }
}

/// The rows of a table grouped by subject: the subjects in ascending order,
/// each with the positions of its rows in the order of the table. A row
/// whose cell in the column of subjects is no `Same` value is a defect, and
/// so is every row of a table that has no such column; the defect is named
/// by the position of the first such row.
pub fn group_rows(unreconciled: &Unreconciled) -> (r: Result<Vec<Group>, NoSubject>)
    ensures
        match r {
            Ok(groups) => is_grouping(
                subjects_of(unreconciled.cells(), subject_column(unreconciled.columns())),
                unreconciled.cells().len(),
                groups@,
            ),
            Err(e) => first_without_subject(
                subjects_of(unreconciled.cells(), subject_column(unreconciled.columns())),
                e.row as int,
            ),
        },
{
    let column = unreconciled.find_column("subject_id");
    proof {
        if column is Some {
            lemma_first_unique(unreconciled.columns(), "subject_id"@, column.unwrap() as int);
        }
    }
    let ghost subjects = subjects_of(
        unreconciled.cells(),
        subject_column(unreconciled.columns()),
    );
    let mut ids: Vec<Option<&String>> = Vec::new();
    let mut i: usize = 0;
    while i < unreconciled.rows.len()
        invariant
            i <= unreconciled.rows.len(),
            ids@.len() == i,
            column_view(column) == subject_column(unreconciled.columns()),
            subjects == subjects_of(unreconciled.cells(), subject_column(unreconciled.columns())),
            forall|k: int| 0 <= k < i ==> #[trigger] ids_view(ids@)[k] == subjects[k],
        decreases unreconciled.rows.len() - i,
    {
        let ghost before = ids_view(ids@);
        ids.push(row_subject(&unreconciled.rows[i], column));
        assert forall|k: int| 0 <= k < i + 1 implies #[trigger] ids_view(ids@)[k]
            == subjects[k] by {
            if k < i {
                assert(ids_view(ids@)[k] == before[k]);
            }
        }
        i += 1;
    }
    assert(ids_view(ids@) =~= subjects);
    group_subjects(&ids)
}

/// The texts of a value in a written row: those of `value_texts`, but for a
/// list its values with a space between each two.
pub open spec fn cell_texts(value: FieldView) -> Seq<Seq<char>> {
    match value {
        FieldView::List { values, .. } => seq![joined(values, " "@)],
        _ => value_texts(value),
    }
}

/// What a row writes under the first `count` columns: under each the texts
/// of the value of its cell, or as many empty texts as the column is wide
/// where the cell is empty, missing or of another shape than the column.
pub open spec fn row_texts(columns: Entries, row: Seq<FieldView>, count: nat) -> Seq<Seq<char>>
    decreases count,
{
    if count == 0 || count > columns.len() {
        Seq::empty()
    } else {
        row_texts(columns, row, (count - 1) as nat) + if count - 1 < row.len() && row[count
            - 1].shape() == columns[count - 1].1.shape() {
            cell_texts(row[count - 1])
        } else {
            blanks(width(columns[count - 1].1.shape()))
        }
    }
}

/// A written row is as wide as the header: whatever its cells hold, it
/// writes as many texts under the columns as the columns have names.
pub proof fn lemma_row_width(columns: Entries, row: Seq<FieldView>, count: nat)
    ensures
        row_texts(columns, row, count).len() == header_of(columns, count).len(),
    decreases count,
{
    if count > 0 && count <= columns.len() {
        lemma_row_width(columns, row, (count - 1) as nat);
        let shape = columns[count - 1].1.shape();
        assert(header_names(columns[count - 1].0, shape).len() == width(shape));
        if count - 1 < row.len() && row[count - 1].shape() == shape {
            assert(cell_texts(row[count - 1]).len() == width(shape));
        }
    }
}

/// The header of the written table: the names of every column, in the order
/// of the columns.
pub fn print_header(names: &UnreconciledNames) -> (header: Vec<String>)
    ensures
        strings_view(header@) == header_of(names_view(names@), names@.len()),
{
    let mut header: Vec<String> = Vec::new();
    let mut i: usize = 0;
    assert(strings_view(header@) =~= header_of(names_view(names@), 0));
    while i < names.len()
        invariant
            i <= names.len(),
            strings_view(header@) == header_of(names_view(names@), i as nat),
        decreases names.len() - i,
    {
        push_header_names(&mut header, &names[i].0, names[i].1.shape());
        i += 1;
    }
    header
}

/// What a row writes under the columns, in their order.
pub fn print_row(names: &UnreconciledNames, row: &UnreconciledRow) -> (output: Vec<String>)
    ensures
        strings_view(output@) == row_texts(names_view(names@), row_view(row@), names@.len()),
{
    let mut output: Vec<String> = Vec::new();
    let mut i: usize = 0;
    assert(strings_view(output@) =~= row_texts(names_view(names@), row_view(row@), 0));
    while i < names.len()
        invariant
            i <= names.len(),
            strings_view(output@) == row_texts(names_view(names@), row_view(row@), i as nat),
        decreases names.len() - i,
    {
        if i < row.len() && row[i].shape() == names[i].1.shape() {
            match &row[i] {
                FlatField::List { values, value: _ } => {
                    let ghost before = strings_view(output@);
                    output.push(join(values, " "));
                    assert(strings_view(output@) =~= before + cell_texts(row@[i as int]@));
                },
                other => {
                    push_value_texts(&mut output, other);
                },
            }
        } else {
            push_blanks(&mut output, shape_width(names[i].1.shape()));
        }
        i += 1;
    }
    output
}

/// The written table: the header, then what each row writes, in the order
/// of the rows. A table without rows writes nothing.
pub fn unreconciled_records(unreconciled: &Unreconciled) -> (output: Vec<Vec<String>>)
    ensures
        output@.len() == if unreconciled.rows@.len() == 0 {
            0
        } else {
            unreconciled.rows@.len() + 1
        },
        output@.len() > 0 ==> strings_view(output@[0]@) == header_of(
            unreconciled.columns(),
            unreconciled.columns().len(),
        ),
        forall|r: int|
            0 <= r < unreconciled.rows@.len() ==> strings_view((#[trigger] output@[r + 1])@)
                == row_texts(
                unreconciled.columns(),
                unreconciled.cells()[r],
                unreconciled.columns().len(),
            ),
{
    let mut output: Vec<Vec<String>> = Vec::new();
    let n = unreconciled.rows.len();
    if n == 0 {
        return output;
    }
    output.push(print_header(&unreconciled.names));
    let mut r: usize = 0;
    while r < n
        invariant
            r <= n == unreconciled.rows@.len(),
            output@.len() == r + 1,
            strings_view(output@[0]@) == header_of(
                unreconciled.columns(),
                unreconciled.columns().len(),
            ),
            forall|k: int|
                0 <= k < r ==> strings_view((#[trigger] output@[k + 1])@) == row_texts(
                    unreconciled.columns(),
                    unreconciled.cells()[k],
                    unreconciled.columns().len(),
                ),
        decreases n - r,
    {
        output.push(print_row(&unreconciled.names, &unreconciled.rows[r]));
        r += 1;
    }
    output
}

} // verus!
