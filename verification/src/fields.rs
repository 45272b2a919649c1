//! A classification as a row of named cells, held in the sections in which
//! its parts are read: the subject, the annotations, the metadata and the
//! data of the subject.

use crate::flat::{FieldView, FlatField};
use crate::order::{lemma_placed_at, lemma_sorted_first, ordered, sorted_first};
use crate::output::{header_names, push_header_names, push_value_texts, value_texts};
use crate::text::{join, joined, lex_le, str_le, strings_view};
use vstd::prelude::*;

verus! {

/// The value of a cell.
pub type UnreconciledField = FlatField;

/// A named value: the header of its column, and the value.
#[derive(Clone, Debug, PartialEq, Eq)]
pub struct UnreconciledCell {
    pub header: String,
    pub cell: UnreconciledField,
}

/// A cell as the contracts see it: header and value.
pub type CellView = (Seq<char>, FieldView);

impl View for UnreconciledCell {
    type V = CellView;

    open spec fn view(&self) -> CellView {
        (self.header@, self.cell@)
    }
}

/// The cells of a vector of cells as the contracts see them.
pub open spec fn cells_of(v: Seq<UnreconciledCell>) -> Seq<CellView> {
    Seq::new(v.len(), |i: int| v[i]@)
}

/// One classification: the cell of its subject, and the cells of its
/// annotations, of its metadata and of the data of its subject.
#[derive(Debug)]
pub struct UnreconciledRow {
    subject_id: UnreconciledCell,
    annotations: Vec<UnreconciledCell>,
    metadata: Vec<UnreconciledCell>,
    subject_data: Vec<UnreconciledCell>,
}

impl UnreconciledRow {
    /// The cell of the subject.
    pub closed spec fn subject(self) -> CellView {
        self.subject_id@
    }

    /// The cells of the annotations, in the order in which they were pushed.
    pub closed spec fn annotation_cells(self) -> Seq<CellView> {
        cells_of(self.annotations@)
    }

    /// The cells of the metadata, in the order in which they were pushed.
    pub closed spec fn metadata_cells(self) -> Seq<CellView> {
        cells_of(self.metadata@)
    }

    /// The cells of the data of the subject, in the order in which they were
    /// pushed.
    pub closed spec fn subject_cells(self) -> Seq<CellView> {
        cells_of(self.subject_data@)
    }

    /// All the cells of the row: the subject, then the annotations, the
    /// metadata and the data of the subject.
    pub open spec fn cells(self) -> Seq<CellView> {
        seq![self.subject()] + self.annotation_cells() + self.metadata_cells()
            + self.subject_cells()
    }

    /// A row that holds the cell of its subject and nothing else.
    pub fn new(subject_id: UnreconciledCell) -> (row: Self)
        ensures
            row.subject() == subject_id@,
            row.annotation_cells() == Seq::<CellView>::empty(),
            row.metadata_cells() == Seq::<CellView>::empty(),
            row.subject_cells() == Seq::<CellView>::empty(),
    {
        let row = Self {
            subject_id,
            annotations: Vec::new(),
            metadata: Vec::new(),
            subject_data: Vec::new(),
        };
        assert(row.annotation_cells() =~= Seq::<CellView>::empty());
        assert(row.metadata_cells() =~= Seq::<CellView>::empty());
        assert(row.subject_cells() =~= Seq::<CellView>::empty());
        row
    }

    /// Adds a cell behind the annotations.
    pub fn push_annotation(&mut self, cell: UnreconciledCell)
        ensures
            final(self).subject() == old(self).subject(),
            final(self).annotation_cells() == old(self).annotation_cells().push(cell@),
            final(self).metadata_cells() == old(self).metadata_cells(),
            final(self).subject_cells() == old(self).subject_cells(),
    {
        self.annotations.push(cell);
        assert(self.annotation_cells() =~= old(self).annotation_cells().push(cell@));
    }

    /// Adds a cell behind the metadata.
    pub fn push_metadata(&mut self, cell: UnreconciledCell)
        ensures
            final(self).subject() == old(self).subject(),
            final(self).annotation_cells() == old(self).annotation_cells(),
            final(self).metadata_cells() == old(self).metadata_cells().push(cell@),
            final(self).subject_cells() == old(self).subject_cells(),
    {
        self.metadata.push(cell);
        assert(self.metadata_cells() =~= old(self).metadata_cells().push(cell@));
    }

    /// Adds a cell behind the data of the subject.
    pub fn push_subject_data(&mut self, cell: UnreconciledCell)
        ensures
            final(self).subject() == old(self).subject(),
            final(self).annotation_cells() == old(self).annotation_cells(),
            final(self).metadata_cells() == old(self).metadata_cells(),
            final(self).subject_cells() == old(self).subject_cells().push(cell@),
    {
        self.subject_data.push(cell);
        assert(self.subject_cells() =~= old(self).subject_cells().push(cell@));
    }

    /// Walks over the cells of the row, from the cell of the subject on. The
    /// number of the cells has to fit the machine's word.
    pub fn iter(&self) -> (walk: RowIter<'_>)
        requires
            self.cells().len() <= usize::MAX,
        ensures
            walk.wf(),
            walk.cells() == self.cells(),
            walk.position() == 0,
    {
        let a = self.annotations.len();
        let m = self.metadata.len();
        let s = self.subject_data.len();
        RowIter {
            row: self,
            annotations_end: a,
            metadata_end: a + m,
            subject_data_end: a + m + s,
            pos: 0,
        }
    }
}

/// A walk over the cells of a row: the row, where its sections end, and how
/// many cells have been handed out.
pub struct RowIter<'a> {
    row: &'a UnreconciledRow,
    annotations_end: usize,
    metadata_end: usize,
    subject_data_end: usize,
    pos: usize,
}

impl<'a> RowIter<'a> {
    /// The cells that the walk goes over.
    pub closed spec fn cells(self) -> Seq<CellView> {
        self.row.cells()
    }

    /// How many cells have been handed out.
    pub closed spec fn position(self) -> nat {
        self.pos as nat
    }

    /// Whether the walk knows where the sections of its row end, and has
    /// handed out no more cells than there are.
    pub closed spec fn wf(self) -> bool {
        &&& self.annotations_end == self.row.annotations@.len()
        &&& self.metadata_end == self.annotations_end + self.row.metadata@.len()
        &&& self.subject_data_end == self.metadata_end + self.row.subject_data@.len()
        &&& self.subject_data_end < usize::MAX
        &&& self.pos <= self.subject_data_end + 1
    }

    /// Hands out the next cell, or `None` once every cell has been handed
    /// out.
    pub fn next(&mut self) -> (r: Option<&'a UnreconciledCell>)
        requires
            old(self).wf(),
        ensures
            final(self).wf(),
            final(self).cells() == old(self).cells(),
            match r {
                Some(cell) => {
                    &&& old(self).position() < old(self).cells().len()
                    &&& cell@ == old(self).cells()[old(self).position() as int]
                    &&& final(self).position() == old(self).position() + 1
                },
                None => {
                    &&& old(self).position() >= old(self).cells().len()
                    &&& final(self).position() == old(self).position()
                },
            },
    {
        let row: &'a UnreconciledRow = self.row;
        if self.pos == 0 {
            self.pos += 1;
            Some(&row.subject_id)
        } else if self.pos <= self.annotations_end {
            self.pos += 1;
            Some(&row.annotations[self.pos - 2])
        } else if self.pos <= self.metadata_end {
            self.pos += 1;
            Some(&row.metadata[self.pos - self.annotations_end - 2])
        } else if self.pos <= self.subject_data_end {
            self.pos += 1;
            Some(&row.subject_data[self.pos - self.metadata_end - 2])
        } else {
            None
        }
    }
}

/// The subject of a row: the value of the cell of its subject, where that is
/// a `Same` value.
pub open spec fn subject_of(row: UnreconciledRow) -> Option<Seq<char>> {
    match row.subject().1 {
        FieldView::Same { value } => Some(value),
        _ => None,
    }
}

/// The subject of a row, if the cell of its subject holds one.
pub fn get_subject_id(row: &UnreconciledRow) -> (r: Option<String>)
    ensures
        match r {
            Some(id) => subject_of(*row) == Some(id@),
            None => subject_of(*row) is None,
        },
{
    match &row.subject_id.cell {
        FlatField::Same { value } => Some(value.clone()),
        _ => None,
    }
}

/// The classifications of one workflow, row by row.
#[derive(Debug)]
pub struct Unreconciled {
    pub workflow_id: String,
    pub workflow_name: String,
    pub rows: Vec<UnreconciledRow>,
}

/// The header that the cells give: the names of each cell's column, in the
/// order of the cells.
pub open spec fn header_texts(cells: Seq<CellView>, count: nat) -> Seq<Seq<char>>
    decreases count,
{
    if count == 0 || count > cells.len() {
        Seq::empty()
    } else {
        header_texts(cells, (count - 1) as nat) + header_names(
            cells[count - 1].0,
            cells[count - 1].1.shape(),
        )
    }
}

/// The texts of a value in a written row: those of `value_texts`, but for a
/// list its values with a space between each two.
pub open spec fn cell_texts(value: FieldView) -> Seq<Seq<char>> {
    match value {
        FieldView::List { values, .. } => seq![joined(values, " "@)],
        _ => value_texts(value),
    }
}

/// What the cells write: the texts of each cell's value, in the order of the
/// cells.
pub open spec fn row_texts(cells: Seq<CellView>, count: nat) -> Seq<Seq<char>>
    decreases count,
{
    if count == 0 || count > cells.len() {
        Seq::empty()
    } else {
        row_texts(cells, (count - 1) as nat) + cell_texts(cells[count - 1].1)
    }
}

/// Appends the names of the columns of a cell.
fn push_cell_header(output: &mut Vec<String>, cell: &UnreconciledCell, Ghost(cells): Ghost<
    Seq<CellView>,
>, Ghost(at): Ghost<nat>)
    requires
        at < cells.len(),
        cells[at as int] == cell@,
        strings_view(old(output)@) == header_texts(cells, at),
    ensures
        strings_view(final(output)@) == header_texts(cells, at + 1),
{
    push_header_names(output, &cell.header, cell.cell.shape());
}

/// Appends the texts of the value of a cell.
fn push_cell_texts(output: &mut Vec<String>, cell: &UnreconciledCell, Ghost(cells): Ghost<
    Seq<CellView>,
>, Ghost(at): Ghost<nat>)
    requires
        at < cells.len(),
        cells[at as int] == cell@,
        strings_view(old(output)@) == row_texts(cells, at),
    ensures
        strings_view(final(output)@) == row_texts(cells, at + 1),
{
    match &cell.cell {
        FlatField::List { values, value: _ } => {
            let ghost before = strings_view(output@);
            output.push(join(values, " "));
            assert(strings_view(output@) =~= before + cell_texts(cell@.1));
        },
        other => {
            push_value_texts(output, other);
        },
    }
}

/// The header of the written table, as a row gives it: the names of the
/// columns of each of its cells, in the order of the cells.
pub fn print_header(row: &UnreconciledRow) -> (header: Vec<String>)
    ensures
        strings_view(header@) == header_texts(row.cells(), row.cells().len()),
{
    let ghost cells = row.cells();
    let mut header: Vec<String> = Vec::new();
    assert(strings_view(header@) =~= header_texts(cells, 0));
    push_cell_header(&mut header, &row.subject_id, Ghost(cells), Ghost(0));
    let a = row.annotations.len();
    let mut i: usize = 0;
    while i < a
        invariant
            i <= a == row.annotations@.len(),
            cells == row.cells(),
            strings_view(header@) == header_texts(cells, (1 + i) as nat),
        decreases a - i,
    {
        assert(cells[1 + i] == row.annotations@[i as int]@);
        push_cell_header(&mut header, &row.annotations[i], Ghost(cells), Ghost((1 + i) as nat));
        i += 1;
    }
    let m = row.metadata.len();
    let mut i: usize = 0;
    while i < m
        invariant
            i <= m == row.metadata@.len(),
            a == row.annotations@.len(),
            cells == row.cells(),
            strings_view(header@) == header_texts(cells, (1 + a + i) as nat),
        decreases m - i,
    {
        assert(cells[1 + a + i] == row.metadata@[i as int]@);
        push_cell_header(&mut header, &row.metadata[i], Ghost(cells), Ghost((1 + a + i) as nat));
        i += 1;
    }
    let s = row.subject_data.len();
    let mut i: usize = 0;
    while i < s
        invariant
            i <= s == row.subject_data@.len(),
            a == row.annotations@.len(),
            m == row.metadata@.len(),
            cells == row.cells(),
            strings_view(header@) == header_texts(cells, (1 + a + m + i) as nat),
        decreases s - i,
    {
        assert(cells[1 + a + m + i] == row.subject_data@[i as int]@);
        push_cell_header(
            &mut header,
            &row.subject_data[i],
            Ghost(cells),
            Ghost((1 + a + m + i) as nat),
        );
        i += 1;
    }
    header
}

/// What a row writes: the texts of the values of its cells, in the order of
/// the cells.
pub fn print_row(row: &UnreconciledRow) -> (output: Vec<String>)
    ensures
        strings_view(output@) == row_texts(row.cells(), row.cells().len()),
{
    let ghost cells = row.cells();
    let mut output: Vec<String> = Vec::new();
    assert(strings_view(output@) =~= row_texts(cells, 0));
    push_cell_texts(&mut output, &row.subject_id, Ghost(cells), Ghost(0));
    let a = row.annotations.len();
    let mut i: usize = 0;
    while i < a
        invariant
            i <= a == row.annotations@.len(),
            cells == row.cells(),
            strings_view(output@) == row_texts(cells, (1 + i) as nat),
        decreases a - i,
    {
        assert(cells[1 + i] == row.annotations@[i as int]@);
        push_cell_texts(&mut output, &row.annotations[i], Ghost(cells), Ghost((1 + i) as nat));
        i += 1;
    }
    let m = row.metadata.len();
    let mut i: usize = 0;
    while i < m
        invariant
            i <= m == row.metadata@.len(),
            a == row.annotations@.len(),
            cells == row.cells(),
            strings_view(output@) == row_texts(cells, (1 + a + i) as nat),
        decreases m - i,
    {
        assert(cells[1 + a + i] == row.metadata@[i as int]@);
        push_cell_texts(&mut output, &row.metadata[i], Ghost(cells), Ghost((1 + a + i) as nat));
        i += 1;
    }
    let s = row.subject_data.len();
    let mut i: usize = 0;
    while i < s
        invariant
            i <= s == row.subject_data@.len(),
            a == row.annotations@.len(),
            m == row.metadata@.len(),
            cells == row.cells(),
            strings_view(output@) == row_texts(cells, (1 + a + m + i) as nat),
        decreases s - i,
    {
        assert(cells[1 + a + m + i] == row.subject_data@[i as int]@);
        push_cell_texts(
            &mut output,
            &row.subject_data[i],
            Ghost(cells),
            Ghost((1 + a + m + i) as nat),
        );
        i += 1;
    }
    output
}

/// What a row is sorted by: its subject, or the empty text where it has none.
pub open spec fn sort_key(row: UnreconciledRow) -> Seq<char> {
    match subject_of(row) {
        Some(id) => id,
        None => Seq::empty(),
    }
}

/// What rows are sorted by, as a function of the row.
pub open spec fn by_subject() -> spec_fn(UnreconciledRow) -> Seq<char> {
    |row: UnreconciledRow| sort_key(row)
}

/// Whether the subject of the row at `a` comes before or equals that of the
/// row at `b`.
fn subject_le(rows: &Vec<UnreconciledRow>, a: usize, b: usize) -> (r: bool)
    requires
        a < rows.len(),
        b < rows.len(),
    ensures
        r == lex_le(sort_key(rows@[a as int]), sort_key(rows@[b as int])),
{
    proof {
        reveal_strlit("");
        assert(""@ =~= Seq::<char>::empty());
    }
    let x = match &rows[a].subject_id.cell {
        FlatField::Same { value } => value.as_str(),
        _ => "",
    };
    let y = match &rows[b].subject_id.cell {
        FlatField::Same { value } => value.as_str(),
        _ => "",
    };
    str_le(x, y)
}

/// Sorts rows by subject, in ascending order; rows of one subject keep the
/// order in which they stood. A row without a subject counts as one with the
/// empty subject.
pub fn sort_by_subject(rows: &mut Vec<UnreconciledRow>)
    ensures
        final(rows)@ == sorted_first(old(rows)@, old(rows)@.len(), by_subject()),
        ordered(final(rows)@, by_subject()),
        final(rows)@.to_multiset() == old(rows)@.to_multiset(),
{
    let ghost given = rows@;
    let n = rows.len();
    let mut i: usize = 0;
    assert(rows@ =~= sorted_first(given, 0, by_subject()) + given.subrange(0, n as int));
    while i < n
        invariant
            i <= n,
            n == given.len(),
            n == rows.len(),
            rows@ == sorted_first(given, i as nat, by_subject()) + given.subrange(
                i as int,
                n as int,
            ),
        decreases n - i,
    {
        let ghost done = sorted_first(given, i as nat, by_subject());
        let ghost rest = given.subrange(i as int, n as int);
        proof {
            lemma_sorted_first(given, i as nat, by_subject());
        }
        // where the row at `i` belongs among the rows before it
        let mut p: usize = i;
        while p > 0 && !subject_le(rows, p - 1, i)
            invariant
                p <= i < n,
                n == rows.len(),
                done.len() == i,
                rows@ == done + rest,
                rest.len() == n - i,
                rest[0] == given[i as int],
                forall|j: int|
                    p <= j < i ==> !lex_le(sort_key(#[trigger] done[j]), sort_key(given[i as int])),
            decreases p,
        {
            assert(rows@[p - 1] == done[p - 1]);
            assert(rows@[i as int] == rest[0]);
            p -= 1;
        }
        proof {
            if p > 0 {
                assert(rows@[p - 1] == done[p - 1]);
                assert(rows@[i as int] == rest[0]);
            }
            lemma_placed_at(done, given[i as int], p as int, by_subject());
        }
        let ghost before = rows@;
        let row = rows.remove(i);
        rows.insert(p, row);
        assert(rows@ =~= before.remove(i as int).insert(p as int, before[i as int]));
        assert(rows@ =~= sorted_first(given, (i + 1) as nat, by_subject()) + given.subrange(
            i + 1,
            n as int,
        ));
        i += 1;
    }
    proof {
        lemma_sorted_first(given, n as nat, by_subject());
        assert(given.take(n as int) =~= given);
        assert(rows@ =~= sorted_first(given, n as nat, by_subject()));
    }
}

/// The written table of the classifications: their rows are sorted by
/// subject, and the table holds the header that the first row gives, then
/// what each row writes, in the sorted order. Without rows it holds nothing.
pub fn unreconciled_records(unreconciled: &mut Unreconciled) -> (output: Vec<Vec<String>>)
    ensures
        final(unreconciled).workflow_id == old(unreconciled).workflow_id,
        final(unreconciled).workflow_name == old(unreconciled).workflow_name,
        final(unreconciled).rows@ == sorted_first(
            old(unreconciled).rows@,
            old(unreconciled).rows@.len(),
            by_subject(),
        ),
        final(unreconciled).rows@.len() == old(unreconciled).rows@.len(),
        output@.len() == if final(unreconciled).rows@.len() == 0 {
            0
        } else {
            final(unreconciled).rows@.len() + 1
        },
        output@.len() > 0 ==> strings_view(output@[0]@) == header_texts(
            final(unreconciled).rows@[0].cells(),
            final(unreconciled).rows@[0].cells().len(),
        ),
        forall|r: int|
            0 <= r < final(unreconciled).rows@.len() ==> strings_view(
                (#[trigger] output@[r + 1])@,
            ) == row_texts(
                final(unreconciled).rows@[r].cells(),
                final(unreconciled).rows@[r].cells().len(),
            ),
{
    proof {
        lemma_sorted_first(unreconciled.rows@, unreconciled.rows@.len(), by_subject());
    }
    sort_by_subject(&mut unreconciled.rows);
    let mut output: Vec<Vec<String>> = Vec::new();
    let n = unreconciled.rows.len();
    if n == 0 {
        return output;
    }
    output.push(print_header(&unreconciled.rows[0]));
    let mut r: usize = 0;
    while r < n
        invariant
            r <= n == unreconciled.rows@.len(),
            n > 0,
            output@.len() == r + 1,
            strings_view(output@[0]@) == header_texts(
                unreconciled.rows@[0].cells(),
                unreconciled.rows@[0].cells().len(),
            ),
            forall|k: int|
                0 <= k < r ==> strings_view((#[trigger] output@[k + 1])@) == row_texts(
                    unreconciled.rows@[k].cells(),
                    unreconciled.rows@[k].cells().len(),
                ),
        decreases n - r,
    {
        output.push(print_row(&unreconciled.rows[r]));
        r += 1;
    }
    output
}

} // verus!
