//! Order among rows: sorting them by a key, and grouping them by subject.

use crate::text::{
    lemma_lex_lt_le, lemma_lex_total, lemma_lex_transitive, lex_le, lex_lt, str_eq, str_le,
};
use vstd::prelude::*;
use vstd::seq_lib::to_multiset_build;

verus! {

/// The rows of one subject: the id of the subject, and the positions of its
/// rows in the table in ascending order.
#[derive(Clone, Debug, PartialEq, Eq)]
pub struct Group {
    pub subject_id: String,
    pub rows: Vec<usize>,
}

/// A defect of the schema: the subject id of the row at `row` is missing or
/// is no `Same` value.
#[derive(Clone, Copy, Debug, PartialEq, Eq)]
pub struct NoSubject {
    pub row: usize,
}

/// Whether the row at `i` is the first that has no subject.
pub open spec fn first_without_subject(subjects: Seq<Option<Seq<char>>>, i: int) -> bool {
    &&& 0 <= i < subjects.len()
    &&& subjects[i] is None
    &&& forall|j: int| 0 <= j < i ==> (#[trigger] subjects[j]) is Some
}

/// Whether a group holds rows of its subject only, among the first `count`
/// rows of the table, in ascending order, and at least one.
pub open spec fn group_ok(subjects: Seq<Option<Seq<char>>>, count: nat, group: Group) -> bool {
    &&& group.rows@.len() > 0
    &&& forall|a: int, b: int|
        0 <= a < b < group.rows@.len() ==> (#[trigger] group.rows@[a]) < (#[trigger] group.rows@[b])
    &&& forall|k: int|
        0 <= k < group.rows@.len() ==> {
            &&& (#[trigger] group.rows@[k]) < count
            &&& subjects[group.rows@[k] as int] == Some(group.subject_id@)
        }
}

/// Whether the row at `i` stands in the group of its subject.
pub open spec fn row_grouped(subjects: Seq<Option<Seq<char>>>, groups: Seq<Group>, i: int) -> bool {
    exists|g: int, k: int|
        {
            &&& 0 <= g < groups.len()
            &&& 0 <= k < groups[g].rows@.len()
            &&& (#[trigger] groups[g].rows@[k]) == i
            &&& subjects[i] == Some(groups[g].subject_id@)
        }
}

/// Whether the groups are the grouping of the first `count` rows by subject:
/// the subjects in strictly ascending order, each with its rows in the order
/// of the table, and every row in the group of its subject.
pub open spec fn is_grouping(subjects: Seq<Option<Seq<char>>>, count: nat, groups: Seq<Group>) -> bool {
    &&& forall|a: int, b: int|
        0 <= a < b < groups.len() ==> lex_lt(
            (#[trigger] groups[a]).subject_id@,
            (#[trigger] groups[b]).subject_id@,
        )
    &&& forall|g: int| 0 <= g < groups.len() ==> group_ok(subjects, count, #[trigger] groups[g])
    &&& forall|i: int| 0 <= i < count ==> row_grouped(subjects, groups, i)
}

/// The subjects of the rows as the contracts see them.
pub open spec fn ids_view(ids: Seq<Option<&String>>) -> Seq<Option<Seq<char>>> {
    Seq::new(
        ids.len(),
        |i: int|
            match ids[i] {
                Some(id) => Some(id@),
                None => None,
            },
    )
}

/// Groups rows by their subjects: the subjects in ascending order, each with
/// the positions of its rows in their order. A row without a subject is a
/// defect, named by the position of the first such row.
pub fn group_subjects(ids: &Vec<Option<&String>>) -> (r: Result<Vec<Group>, NoSubject>)
    ensures
        match r {
            Ok(groups) => {
                &&& forall|i: int| 0 <= i < ids@.len() ==> (#[trigger] ids_view(ids@)[i]) is Some
                &&& is_grouping(ids_view(ids@), ids@.len(), groups@)
            },
            Err(e) => first_without_subject(ids_view(ids@), e.row as int),
        },
{
    let ghost subjects = ids_view(ids@);
    let mut groups: Vec<Group> = Vec::new();
    let mut i: usize = 0;
    while i < ids.len()
        invariant
            i <= ids.len(),
            subjects == ids_view(ids@),
            forall|j: int| 0 <= j < i ==> (#[trigger] subjects[j]) is Some,
            is_grouping(subjects, i as nat, groups@),
        decreases ids.len() - i,
    {
        let id = match ids[i] {
            Some(id) => id,
            None => {
                assert(first_without_subject(subjects, i as int));
                return Err(NoSubject { row: i });
            },
        };
        let mut p: usize = 0;
        while p < groups.len() && !str_le(id.as_str(), groups[p].subject_id.as_str())
            invariant
                p <= groups.len(),
                forall|g: int| 0 <= g < p ==> lex_lt((#[trigger] groups@[g]).subject_id@, id@),
            decreases groups.len() - p,
        {
            proof {
                lemma_lex_total(id@, groups@[p as int].subject_id@, 0);
            }
            p += 1;
        }
        let ghost before = groups@;
        if p < groups.len() && str_eq(groups[p].subject_id.as_str(), id.as_str()) {
            groups[p].rows.push(i);
            proof {
                let after = groups@;
                assert(after[p as int].subject_id == before[p as int].subject_id);
                assert(after[p as int].rows@ == before[p as int].rows@.push(i));
                assert forall|g: int| 0 <= g < after.len() implies group_ok(
                    subjects,
                    (i + 1) as nat,
                    #[trigger] after[g],
                ) by {
                    assert(group_ok(subjects, i as nat, before[g]));
                    if g == p {
                        let rows = after[g].rows@;
                        assert forall|a: int, b: int| 0 <= a < b < rows.len() implies (
                        #[trigger] rows[a]) < (#[trigger] rows[b]) by {
                            if b < rows.len() - 1 {
                                assert(before[g].rows@[a] < before[g].rows@[b]);
                            } else {
                                assert(before[g].rows@[a] < i);
                            }
                        }
                        assert forall|k: int| 0 <= k < rows.len() implies {
                            &&& (#[trigger] rows[k]) < i + 1
                            &&& subjects[rows[k] as int] == Some(after[g].subject_id@)
                        } by {
                            if k < rows.len() - 1 {
                                assert(before[g].rows@[k] < i);
                            }
                        }
                    } else {
                        assert(after[g] == before[g]);
                    }
                }
                assert forall|a: int, b: int| 0 <= a < b < after.len() implies lex_lt(
                    (#[trigger] after[a]).subject_id@,
                    (#[trigger] after[b]).subject_id@,
                ) by {
                    assert(lex_lt(before[a].subject_id@, before[b].subject_id@));
                }
                assert forall|j: int| 0 <= j < i + 1 implies row_grouped(subjects, after, j) by {
                    if j < i {
                        assert(row_grouped(subjects, before, j));
                        let (g, k) = choose|g: int, k: int|
                            {
                                &&& 0 <= g < before.len()
                                &&& 0 <= k < before[g].rows@.len()
                                &&& (#[trigger] before[g].rows@[k]) == j
                                &&& subjects[j] == Some(before[g].subject_id@)
                            };
                        assert(after[g].rows@[k] == j);
                    } else {
                        assert(after[p as int].rows@[before[p as int].rows@.len() as int] == i);
                    }
                }
            }
        } else {
            let mut rows: Vec<usize> = Vec::new();
            rows.push(i);
            groups.insert(p, Group { subject_id: id.clone(), rows });
            proof {
                let after = groups@;
                assert(after =~= before.insert(p as int, after[p as int]));
                assert forall|g: int| 0 <= g < after.len() implies group_ok(
                    subjects,
                    (i + 1) as nat,
                    #[trigger] after[g],
                ) by {
                    if g < p {
                        assert(after[g] == before[g]);
                        assert(group_ok(subjects, i as nat, before[g]));
                    } else if g > p {
                        assert(after[g] == before[g - 1]);
                        assert(group_ok(subjects, i as nat, before[g - 1]));
                    }
                }
                assert forall|a: int, b: int| 0 <= a < b < after.len() implies lex_lt(
                    (#[trigger] after[a]).subject_id@,
                    (#[trigger] after[b]).subject_id@,
                ) by {
                    if b < p {
                        assert(lex_lt(before[a].subject_id@, before[b].subject_id@));
                    } else if b == p {
                        assert(lex_lt(before[a].subject_id@, id@));
                    } else if a == p {
                        // the new subject comes before the group that stood at p
                        assert(lex_lt(id@, before[p as int].subject_id@));
                        if b - 1 > p {
                            assert(lex_lt(
                                before[p as int].subject_id@,
                                before[b - 1].subject_id@,
                            ));
                            lemma_lex_lt_le(
                                id@,
                                before[p as int].subject_id@,
                                before[b - 1].subject_id@,
                            );
                        }
                    } else if a < p {
                        assert(lex_lt(before[a].subject_id@, before[b - 1].subject_id@));
                    } else {
                        assert(lex_lt(before[a - 1].subject_id@, before[b - 1].subject_id@));
                    }
                }
                assert forall|j: int| 0 <= j < i + 1 implies row_grouped(subjects, after, j) by {
                    if j < i {
                        assert(row_grouped(subjects, before, j));
                        let (g, k) = choose|g: int, k: int|
                            {
                                &&& 0 <= g < before.len()
                                &&& 0 <= k < before[g].rows@.len()
                                &&& (#[trigger] before[g].rows@[k]) == j
                                &&& subjects[j] == Some(before[g].subject_id@)
                            };
                        if g < p {
                            assert(after[g].rows@[k] == j);
                        } else {
                            assert(after[g + 1].rows@[k] == j);
                        }
                    } else {
                        assert(after[p as int].rows@[0] == i);
                    }
                }
            }
        }
        i += 1;
    }
    Ok(groups)
}

/// Whether the rows stand in ascending order of their keys.
pub open spec fn ordered<T>(cells: Seq<T>, key: spec_fn(T) -> Seq<char>) -> bool {
    forall|a: int, b: int|
        0 <= a < b < cells.len() ==> lex_le(key(#[trigger] cells[a]), key(#[trigger] cells[b]))
}

/// The rows with one more row among them: behind the last row whose subject
/// does not come after its own.
pub open spec fn placed<T>(cells: Seq<T>, row: T, key: spec_fn(T) -> Seq<char>) -> Seq<T>
    decreases cells.len(),
{
    if cells.len() == 0 {
        seq![row]
    } else if lex_le(key(cells.last()), key(row)) {
        cells.push(row)
    } else {
        placed(cells.drop_last(), row, key).push(cells.last())
    }
}

/// The first `count` rows in ascending order of their subjects, rows of one
/// subject in the order in which they stood.
pub open spec fn sorted_first<T>(cells: Seq<T>, count: nat, key: spec_fn(T) -> Seq<char>) -> Seq<
    T,
>
    decreases count,
{
    if count == 0 || count > cells.len() {
        Seq::empty()
    } else {
        placed(sorted_first(cells, (count - 1) as nat, key), cells[count - 1], key)
    }
}

/// Where a row is placed: at `p`, if every row from `p` on has a later
/// subject and the row before `p` has none.
pub proof fn lemma_placed_at<T>(cells: Seq<T>, row: T, p: int, key: spec_fn(T) -> Seq<char>)
    requires
        0 <= p <= cells.len(),
        forall|j: int| p <= j < cells.len() ==> !lex_le(key(#[trigger] cells[j]), key(row)),
        p > 0 ==> lex_le(key(cells[p - 1]), key(row)),
    ensures
        placed(cells, row, key) == cells.insert(p, row),
    decreases cells.len(),
{
    if cells.len() == 0 {
        assert(cells.insert(p, row) =~= seq![row]);
    } else if p == cells.len() {
        assert(cells.insert(p, row) =~= cells.push(row));
    } else {
        assert(!lex_le(key(cells[cells.len() - 1]), key(row)));
        let shorter = cells.drop_last();
        assert forall|j: int| p <= j < shorter.len() implies !lex_le(
            key(#[trigger] shorter[j]),
            key(row),
        ) by {
            assert(shorter[j] == cells[j]);
        }
        lemma_placed_at(shorter, row, p, key);
        assert(shorter.insert(p, row).push(cells.last()) =~= cells.insert(p, row));
    }
}

/// Placing a row among sorted rows keeps them sorted, and keeps every row.
pub proof fn lemma_placed<T>(cells: Seq<T>, row: T, key: spec_fn(T) -> Seq<char>)
    requires
        ordered(cells, key),
    ensures
        ordered(placed(cells, row, key), key),
        placed(cells, row, key).to_multiset() == cells.to_multiset().insert(row),
        placed(cells, row, key).len() == cells.len() + 1,
    decreases cells.len(),
{
    if cells.len() == 0 {
        to_multiset_build(cells, row);
        assert(cells.push(row) =~= seq![row]);
    } else if lex_le(key(cells.last()), key(row)) {
        to_multiset_build(cells, row);
        let after = cells.push(row);
        assert forall|a: int, b: int| 0 <= a < b < after.len() implies lex_le(
            key(#[trigger] after[a]),
            key(#[trigger] after[b]),
        ) by {
            if b < cells.len() {
                assert(lex_le(key(cells[a]), key(cells[b])));
            } else if a < cells.len() - 1 {
                assert(lex_le(key(cells[a]), key(cells[cells.len() - 1])));
                lemma_lex_transitive(
                    key(cells[a]),
                    key(cells.last()),
                    key(row),
                    0,
                );
            }
        }
    } else {
        let shorter = cells.drop_last();
        let last = cells.last();
        assert(ordered(shorter, key)) by {
            assert forall|a: int, b: int| 0 <= a < b < shorter.len() implies lex_le(
                key(#[trigger] shorter[a]),
                key(#[trigger] shorter[b]),
            ) by {
                assert(lex_le(key(cells[a]), key(cells[b])));
            }
        }
        lemma_placed(shorter, row, key);
        let inner = placed(shorter, row, key);
        let after = inner.push(last);
        to_multiset_build(inner, last);
        to_multiset_build(shorter, last);
        assert(shorter.push(last) =~= cells);
        assert(after.to_multiset() =~= cells.to_multiset().insert(row));
        // every row of `inner` is the new row or a row of `shorter`
        assert forall|a: int, b: int| 0 <= a < b < after.len() implies lex_le(
            key(#[trigger] after[a]),
            key(#[trigger] after[b]),
        ) by {
            if b < inner.len() {
                assert(lex_le(key(inner[a]), key(inner[b])));
            } else {
                assert(inner.to_multiset().count(inner[a]) > 0) by {
                    inner.to_multiset_ensures();
                    assert(inner.contains(inner[a]));
                }
                if inner[a] == row {
                    lemma_lex_total(key(last), key(row), 0);
                } else {
                    assert(shorter.to_multiset().count(inner[a]) > 0);
                    shorter.to_multiset_ensures();
                    assert(shorter.contains(inner[a]));
                    let w = choose|w: int| 0 <= w < shorter.len() && shorter[w] == inner[a];
                    assert(lex_le(key(cells[w]), key(cells[cells.len() - 1])));
                }
            }
        }
    }
}

/// The sorted rows are sorted, and are the rows that were given.
pub proof fn lemma_sorted_first<T>(cells: Seq<T>, count: nat, key: spec_fn(T) -> Seq<char>)
    requires
        count <= cells.len(),
    ensures
        ordered(sorted_first(cells, count, key), key),
        sorted_first(cells, count, key).to_multiset() == cells.take(count as int).to_multiset(),
        sorted_first(cells, count, key).len() == count,
    decreases count,
{
    if count == 0 {
        assert(cells.take(0) =~= Seq::<T>::empty());
    } else {
        lemma_sorted_first(cells, (count - 1) as nat, key);
        lemma_placed(sorted_first(cells, (count - 1) as nat, key), cells[count - 1], key);
        assert(cells.take(count as int) =~= cells.take(count - 1).push(cells[count - 1]));
        to_multiset_build(cells.take(count - 1), cells[count - 1]);
    }
}

} // verus!
