use reconciler::fields::{
    get_subject_id, print_header as print_row_header, print_row as print_row_cells,
    sort_by_subject, unreconciled_records as records_of_rows, Unreconciled as Rows,
    UnreconciledCell, UnreconciledRow,
};
use reconciler::flat::{FlatField, ShapeMismatch};
use reconciler::order::{group_subjects, Group, NoSubject};
use reconciler::unreconciled::{
    group_rows, print_header, print_row, unreconciled_records, Unreconciled,
};

fn same(value: &str) -> FlatField {
    FlatField::Same { value: value.to_string() }
}

fn text(value: &str) -> FlatField {
    FlatField::Text { value: value.to_string() }
}

fn cell(header: &str, value: FlatField) -> UnreconciledCell {
    UnreconciledCell { header: header.to_string(), cell: value }
}

fn strings(items: &[&str]) -> Vec<String> {
    items.iter().map(|s| s.to_string()).collect()
}

fn sample_row(subject: &str) -> UnreconciledRow {
    let mut row = UnreconciledRow::new(cell("subject_id", same(subject)));
    row.push_subject_data(cell("Filename", same("a.jpg")));
    row.push_annotation(cell("T0: box", FlatField::Box_ { left: 1, top: 2, right: 3, bottom: 4 }));
    row.push_metadata(cell("started_at", FlatField::NoOp { value: "then".to_string() }));
    row.push_annotation(cell(
        "T1: list",
        FlatField::List { values: strings(&["a", "b"]), value: "a, b".to_string() },
    ));
    row
}

#[test]
fn a_row_is_walked_section_by_section() {
    let row = sample_row("s1");
    let mut walk = row.iter();
    let mut headers = Vec::new();
    while let Some(next) = walk.next() {
        headers.push(next.header.clone());
    }
    assert_eq!(headers, strings(&["subject_id", "T0: box", "T1: list", "started_at", "Filename"]));
    assert!(walk.next().is_none());
    let bare = UnreconciledRow::new(cell("subject_id", same("s")));
    let mut walk = bare.iter();
    assert_eq!(walk.next(), Some(&cell("subject_id", same("s"))));
    assert_eq!(walk.next(), None);
}

#[test]
fn the_subject_of_a_row_is_its_same_value() {
    assert_eq!(get_subject_id(&sample_row("s1")), Some("s1".to_string()));
    let odd = UnreconciledRow::new(cell("subject_id", text("s1")));
    assert_eq!(get_subject_id(&odd), None);
}

#[test]
fn a_row_writes_its_cells_in_order() {
    let row = sample_row("s1");
    assert_eq!(
        print_row_header(&row),
        strings(&[
            "subject_id", "T0: box_left", "T0: box_top", "T0: box_right", "T0: box_bottom",
            "T1: list", "started_at", "Filename"
        ])
    );
    assert_eq!(print_row_cells(&row), strings(&["s1", "1", "2", "3", "4", "a b", "then", "a.jpg"]));
}

#[test]
fn rows_are_written_sorted_by_subject() {
    let mut rows = Rows {
        workflow_id: "1".to_string(),
        workflow_name: "w".to_string(),
        rows: vec![
            UnreconciledRow::new(cell("subject_id", same("b"))),
            UnreconciledRow::new(cell("subject_id", same("a"))),
            UnreconciledRow::new(cell("subject_id", text("z"))),
            UnreconciledRow::new(cell("subject_id", same("a"))),
        ],
    };
    rows.rows[3].push_annotation(cell("x", text("second a")));
    let written = records_of_rows(&mut rows);
    assert_eq!(
        written,
        vec![
            strings(&["subject_id"]),
            strings(&["z"]),
            strings(&["a"]),
            strings(&["a", "second a"]),
            strings(&["b"]),
        ]
    );
    assert_eq!(get_subject_id(&rows.rows[3]), Some("b".to_string()));
    let mut none = Rows { workflow_id: String::new(), workflow_name: String::new(), rows: vec![] };
    assert_eq!(records_of_rows(&mut none), Vec::<Vec<String>>::new());
    let mut few = vec![
        UnreconciledRow::new(cell("subject_id", same("2"))),
        UnreconciledRow::new(cell("subject_id", same("10"))),
    ];
    sort_by_subject(&mut few);
    assert_eq!(get_subject_id(&few[0]), Some("10".to_string()));
}

#[test]
fn a_table_is_built_cell_by_cell() {
    let mut table = Unreconciled::new("7", "bees");
    assert_eq!((table.workflow_id.as_str(), table.workflow_name.as_str()), ("7", "bees"));
    table.set_cell("early", text("dropped")).unwrap();
    assert_eq!(table.names.len(), 1);
    assert!(table.rows.is_empty());
    table.add_row();
    assert_eq!(table.rows, vec![vec![FlatField::Null]]);
    table.set_cell("subject_id", same("s2")).unwrap();
    table.set_cell("T0: dot", FlatField::Point { x: 1, y: 2 }).unwrap();
    table.add_row();
    table.set_cell("subject_id", same("s1")).unwrap();
    table.set_cell("T1: note", text("hi")).unwrap();
    table.set_cell("T1: note", text("ho")).unwrap();
    table.add_column("T0: dot", &text("no second column"));
    table.add_column("last", &same("x"));
    let names: Vec<&str> = table.names.iter().map(|n| n.0.as_str()).collect();
    assert_eq!(names, vec!["early", "subject_id", "T0: dot", "T1: note", "last"]);
    assert_eq!(table.names[2].1, FlatField::Point { x: 1, y: 2 });
    assert_eq!(table.names[3].1, text("hi"));
    assert_eq!(
        table.rows,
        vec![
            vec![FlatField::Null, same("s2"), FlatField::Point { x: 1, y: 2 }, FlatField::Null, FlatField::Null],
            vec![FlatField::Null, same("s1"), FlatField::Null, text("ho"), FlatField::Null],
        ]
    );
    assert_eq!(table.find_column("T1: note"), Some(3));
    assert_eq!(table.find_column("none"), None);
    assert_eq!(
        print_header(&table.names),
        strings(&["early", "subject_id", "T0: dot_x", "T0: dot_y", "T1: note", "last"])
    );
    assert_eq!(print_row(&table.names, &table.rows[0]), strings(&["", "s2", "1", "2", "", ""]));
    assert_eq!(print_row(&table.names, &table.rows[1]), strings(&["", "s1", "", "", "ho", ""]));
    assert_eq!(
        group_rows(&table),
        Ok(vec![
            Group { subject_id: "s1".to_string(), rows: vec![1] },
            Group { subject_id: "s2".to_string(), rows: vec![0] },
        ])
    );
    table.sort_rows();
    assert_eq!(table.rows[0][1], same("s1"));
    assert_eq!(table.rows[1][1], same("s2"));
    assert_eq!(
        unreconciled_records(&table),
        vec![
            strings(&["early", "subject_id", "T0: dot_x", "T0: dot_y", "T1: note", "last"]),
            strings(&["", "s1", "", "", "ho", ""]),
            strings(&["", "s2", "1", "2", "", ""]),
        ]
    );
}

#[test]
fn a_table_without_subjects_cannot_be_grouped() {
    let mut table = Unreconciled::new("7", "bees");
    assert_eq!(group_rows(&table), Ok(vec![]));
    assert_eq!(unreconciled_records(&table), Vec::<Vec<String>>::new());
    table.add_row();
    table.set_cell("x", text("1")).unwrap();
    assert_eq!(group_rows(&table), Err(NoSubject { row: 0 }));
    table.set_cell("subject_id", same("a")).unwrap();
    table.add_row();
    assert_eq!(group_rows(&table), Err(NoSubject { row: 1 }));
    table.sort_rows();
    assert_eq!(table.rows[0][1], FlatField::Null);
    assert_eq!(table.rows[1][1], same("a"));
}

#[test]
fn subjects_are_grouped_in_ascending_order() {
    let ids = strings(&["b", "a", "b", "", "a"]);
    let refs: Vec<Option<&String>> = ids.iter().map(Some).collect();
    assert_eq!(
        group_subjects(&refs),
        Ok(vec![
            Group { subject_id: String::new(), rows: vec![3] },
            Group { subject_id: "a".to_string(), rows: vec![1, 4] },
            Group { subject_id: "b".to_string(), rows: vec![0, 2] },
        ])
    );
    let gap = vec![Some(&ids[0]), None, None];
    assert_eq!(group_subjects(&gap), Err(NoSubject { row: 1 }));
}

#[test]
fn a_cell_of_another_shape_is_refused() {
    let mut table = Unreconciled::new("7", "bees");
    table.add_row();
    table.set_cell("T0: dot", FlatField::Point { x: 1, y: 2 }).unwrap();
    table.set_cell("subject_id", same("s1")).unwrap();
    let names = table.names.clone();
    let rows = table.rows.clone();
    let refused = table.set_cell("T0: dot", text("a dot"));
    assert_eq!(refused, Err(ShapeMismatch { column: "T0: dot".to_string() }));
    assert_eq!(table.names, names);
    assert_eq!(table.rows, rows);
    assert_eq!(table.set_cell("T0: dot", FlatField::Null), Ok(()));
    assert_eq!(table.rows[0][0], FlatField::Null);
    assert_eq!(table.set_cell("T0: dot", FlatField::Point { x: 5, y: 6 }), Ok(()));
    assert_eq!(print_row(&table.names, &table.rows[0]), strings(&["5", "6", "s1"]));
}

#[test]
fn a_row_is_written_as_wide_as_the_header() {
    let names = vec![
        ("T0: dot".to_string(), FlatField::Point { x: 0, y: 0 }),
        ("subject_id".to_string(), same("")),
    ];
    let row = vec![text("not a dot"), same("s1")];
    assert_eq!(print_header(&names).len(), 3);
    assert_eq!(print_row(&names, &row), strings(&["", "", "s1"]));
}
