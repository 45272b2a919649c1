//! A batch of classification records read into a table that is built cell
//! by cell: a row for each record, and in it a cell for each field of the
//! record, set one after the other.

use crate::flat::{clashes, has_key, key_index, Entries, FieldView, FlatField, ShapeMismatch};
use crate::flatten::{
    flatten_record, pairs_view, record_pairs, FlattenError, FlattenFault, Pair, RawRecord,
};
use crate::unreconciled::{empty_row, set_last, widened, Unreconciled};
use vstd::prelude::*;

verus! {

/// The columns and rows of a table after the cell of its last row is set
/// that a pair names: a column for the key of the pair, where there was none,
/// and the value of the pair in the last row under it.
pub open spec fn cell_set(columns: Entries, cells: Seq<Seq<FieldView>>, pair: Pair) -> (
    Entries,
    Seq<Seq<FieldView>>,
) {
    let wider = if has_key(columns, pair.0) {
        columns
    } else {
        columns.push(pair)
    };
    (
        wider,
        set_last(
            if has_key(columns, pair.0) {
                cells
            } else {
                widened(cells)
            },
            key_index(wider, pair.0),
            pair.1,
        ),
    )
}

/// The columns and rows of a table after the first `n` pairs are set in its
/// last row, one after the other. The first pair whose value is of another
/// shape than the column of its key ends the work, and its place is given.
pub open spec fn cells_set(
    columns: Entries,
    cells: Seq<Seq<FieldView>>,
    pairs: Seq<Pair>,
    n: nat,
) -> Result<(Entries, Seq<Seq<FieldView>>), nat>
    decreases n,
{
    if n == 0 || n > pairs.len() {
        Ok((columns, cells))
    } else {
        match cells_set(columns, cells, pairs, (n - 1) as nat) {
            Err(at) => Err(at),
            Ok((wider, rows)) => if clashes(wider, pairs[n - 1]) {
                Err((n - 1) as nat)
            } else {
                Ok(cell_set(wider, rows, pairs[n - 1]))
            },
        }
    }
}

/// The table that the first `count` records make: for each record a row of
/// empty cells is added, and the pairs of the record are set in it. The first
/// record that cannot be read, or that holds a value of another shape than
/// the column of its key, gives the fault.
pub open spec fn parsed_table(records: Seq<RawRecord>, count: nat) -> Result<
    (Entries, Seq<Seq<FieldView>>),
    FlattenFault,
>
    decreases count,
{
    if count == 0 || count > records.len() {
        Ok((Seq::empty(), Seq::empty()))
    } else {
        match parsed_table(records, (count - 1) as nat) {
            Err(fault) => Err(fault),
            Ok((columns, cells)) => match record_pairs(records[count - 1]) {
                Err(fault) => Err(FlattenFault::Record { row: (count - 1) as nat, fault }),
                Ok(pairs) => match cells_set(
                    columns,
                    cells.push(empty_row(columns.len())),
                    pairs,
                    pairs.len(),
                ) {
                    Err(at) => Err(
                        FlattenFault::Shape { row: (count - 1) as nat, column: pairs[at as int].0 },
                    ),
                    Ok(table) => Ok(table),
                },
            },
        }
    }
}

/// A clash among the first pairs is the clash of them all.
pub proof fn lemma_clash_stays(
    columns: Entries,
    cells: Seq<Seq<FieldView>>,
    pairs: Seq<Pair>,
    n: nat,
    all: nat,
)
    requires
        1 <= n <= all <= pairs.len(),
        cells_set(columns, cells, pairs, n) is Err,
    ensures
        cells_set(columns, cells, pairs, all) == cells_set(columns, cells, pairs, n),
    decreases all - n,
{
    if n < all {
        lemma_clash_stays(columns, cells, pairs, n, (all - 1) as nat);
    }
}

/// A fault among the first records is the fault of them all.
pub proof fn lemma_fault_stays(records: Seq<RawRecord>, count: nat, all: nat)
    requires
        1 <= count <= all <= records.len(),
        parsed_table(records, count) is Err,
    ensures
        parsed_table(records, all) == parsed_table(records, count),
    decreases all - count,
{
    if count < all {
        lemma_fault_stays(records, count, (all - 1) as nat);
    }
}

/// Sets the pairs in the last row of the table, one after the other. The
/// first pair that the table refuses ends the work.
pub fn set_cells(table: &mut Unreconciled, pairs: &Vec<(String, FlatField)>) -> (r: Result<
    (),
    ShapeMismatch,
>)
    requires
        old(table).wf(),
    ensures
        final(table).wf(),
        final(table).workflow_id == old(table).workflow_id,
        final(table).workflow_name == old(table).workflow_name,
        match r {
            Ok(()) => cells_set(
                old(table).columns(),
                old(table).cells(),
                pairs_view(pairs@),
                pairs@.len(),
            ) == Ok::<(Entries, Seq<Seq<FieldView>>), nat>(
                (final(table).columns(), final(table).cells()),
            ),
            Err(e) => {
                &&& cells_set(
                    old(table).columns(),
                    old(table).cells(),
                    pairs_view(pairs@),
                    pairs@.len(),
                ) matches Err(at)
                &&& at < pairs@.len()
                &&& e.column@ == pairs@[at as int].0@
            },
        },
{
    let ghost columns = table.columns();
    let ghost cells = table.cells();
    let ghost all = pairs_view(pairs@);
    let mut i: usize = 0;
    while i < pairs.len()
        invariant
            i <= pairs.len(),
            table.wf(),
            table.workflow_id == old(table).workflow_id,
            table.workflow_name == old(table).workflow_name,
            columns == old(table).columns(),
            cells == old(table).cells(),
            all == pairs_view(pairs@),
            cells_set(columns, cells, all, i as nat) == Ok::<(Entries, Seq<Seq<FieldView>>), nat>(
                (table.columns(), table.cells()),
            ),
        decreases pairs.len() - i,
    {
        assert(all[i as int] == (pairs@[i as int].0@, pairs@[i as int].1@));
        match table.set_cell(pairs[i].0.as_str(), pairs[i].1.duplicate()) {
            Ok(()) => {},
            Err(e) => {
                proof {
                    assert(cells_set(columns, cells, all, (i + 1) as nat) == Err::<
                        (Entries, Seq<Seq<FieldView>>),
                        nat,
                    >(i as nat));
                    lemma_clash_stays(columns, cells, all, (i + 1) as nat, all.len());
                }
                return Err(e);
            },
        }
        i += 1;
    }
    Ok(())
}

/// Reads a batch of classification records into a table: one row for each
/// record, in their order, one column for each field found, in the order of
/// first appearance. The first record that cannot be read, or that holds a
/// value of another shape than its column, ends the work and is named by its
/// position.
pub fn parse(records: &Vec<RawRecord>, workflow_id: &str, workflow_name: &str) -> (r: Result<
    Unreconciled,
    FlattenError,
>)
    ensures
        match r {
            Ok(table) => {
                &&& table.wf()
                &&& table.workflow_id@ == workflow_id@
                &&& table.workflow_name@ == workflow_name@
                &&& parsed_table(records@, records@.len()) == Ok::<
                    (Entries, Seq<Seq<FieldView>>),
                    FlattenFault,
                >((table.columns(), table.cells()))
            },
            Err(e) => parsed_table(records@, records@.len()) == Err::<
                (Entries, Seq<Seq<FieldView>>),
                FlattenFault,
            >(e@),
        },
{
    let mut table = Unreconciled::new(workflow_id, workflow_name);
    let mut i: usize = 0;
    while i < records.len()
        invariant
            i <= records.len(),
            table.wf(),
            table.workflow_id@ == workflow_id@,
            table.workflow_name@ == workflow_name@,
            parsed_table(records@, i as nat) == Ok::<(Entries, Seq<Seq<FieldView>>), FlattenFault>(
                (table.columns(), table.cells()),
            ),
        decreases records.len() - i,
    {
        let pairs = match flatten_record(&records[i]) {
            Ok(pairs) => pairs,
            Err(error) => {
                proof {
                    lemma_fault_stays(records@, (i + 1) as nat, records@.len());
                }
                return Err(FlattenError::Record { row: i, error });
            },
        };
        table.add_row();
        match set_cells(&mut table, &pairs) {
            Ok(()) => {},
            Err(mismatch) => {
                proof {
                    lemma_fault_stays(records@, (i + 1) as nat, records@.len());
                }
                return Err(FlattenError::Shape { row: i, column: mismatch.column });
            },
        }
        i += 1;
    }
    Ok(table)
}

} // verus!
