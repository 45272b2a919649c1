use reconciler::flat::{Flat, FlatField, FlatRow, Shape};
use reconciler::order::{Group, NoSubject};
use reconciler::reconcile::{reconcile_column, reconciled_row, Reconciled};
use reconciler::reconcile_fields::{count_shape, lengths_with, reconcile_lengths};
use reconciler::reconciled::{ReconciledField, ReconciledFlag, ReconciledResult};

fn line(x1: i32, y1: i32, x2: i32, y2: i32) -> FlatField {
    FlatField::Length { x1, y1, x2, y2 }
}

fn okay(notes: &str) -> ReconciledResult {
    ReconciledResult { flag: ReconciledFlag::Okay, notes: notes.to_string() }
}

fn row(cells: &[(&str, FlatField)]) -> FlatRow {
    let mut row = FlatRow::new();
    for (key, value) in cells {
        row.insert(key.to_string(), value.clone());
    }
    row
}

#[test]
fn a_scale_bar_reconciles_to_a_ruler() {
    let fields = vec![line(0, 0, 100, 0), line(10, 10, 10, 110), FlatField::Null];
    let refs: Vec<&FlatField> = fields.iter().collect();
    let cell = reconcile_lengths(&refs, "scale bar 5 cm");
    assert_eq!(
        cell,
        ReconciledField::RulerLength {
            x1: 5,
            y1: 5,
            x2: 55,
            y2: 55,
            length: 0,
            pixel_length: 100_000,
            factor: 50_000_000,
            units: "cm".to_string(),
            result: okay("There are 2 length records"),
        }
    );
}

#[test]
fn a_measurement_reconciles_to_a_plain_length() {
    let fields = vec![line(0, 0, 100, 0), line(10, 10, 10, 110)];
    let refs: Vec<&FlatField> = fields.iter().collect();
    let cell = reconcile_lengths(&refs, "wing length");
    assert_eq!(
        cell,
        ReconciledField::Length {
            x1: 5,
            y1: 5,
            x2: 55,
            y2: 55,
            length: 0,
            pixel_length: 100_000,
            units: String::new(),
            result: okay("There are 2 length records"),
        }
    );
}

#[test]
fn lengths_are_means_in_thousandths_of_a_pixel() {
    let fields = vec![line(0, 0, 1, 1), line(0, 0, 3, 4), line(-2, 0, 0, 0)];
    let refs: Vec<&FlatField> = fields.iter().collect();
    match lengths_with(&refs, "T1: ruler 0.5 mm", "are", "records") {
        ReconciledField::RulerLength { pixel_length, factor, units, result, .. } => {
            // (1414 + 5000 + 2000) / 3
            assert_eq!(pixel_length, 2804);
            // 500000 millionths of a unit by 2.804 pixels, in billionths
            assert_eq!(factor, 500_000_000_000 / 2804);
            assert_eq!(units, "mm");
            assert_eq!(result, okay("There are 3 length records"));
        }
        other => panic!("no ruler: {:?}", other),
    }
}

#[test]
fn a_ruler_without_lines_is_empty() {
    let fields = vec![FlatField::Null];
    let refs: Vec<&FlatField> = fields.iter().collect();
    assert_eq!(count_shape(&refs, Shape::Length), 0);
    assert_eq!(
        reconcile_lengths(&refs, "5 cm"),
        ReconciledField::RulerLength {
            x1: 0,
            y1: 0,
            x2: 0,
            y2: 0,
            length: 0,
            pixel_length: 0,
            factor: 0,
            units: "cm".to_string(),
            result: ReconciledResult {
                flag: ReconciledFlag::Empty,
                notes: "There are no length records".to_string(),
            },
        }
    );
}

#[test]
fn a_column_without_values_is_empty_or_all_blank() {
    let fields = vec![FlatField::Null, FlatField::Null];
    let refs: Vec<&FlatField> = fields.iter().collect();
    for (shape, flag) in [
        (Shape::Box_, ReconciledFlag::Empty),
        (Shape::Length, ReconciledFlag::Empty),
        (Shape::Point, ReconciledFlag::Empty),
        (Shape::Same, ReconciledFlag::Empty),
        (Shape::NoOp, ReconciledFlag::Empty),
        (Shape::Null, ReconciledFlag::Empty),
        (Shape::List, ReconciledFlag::AllBlank),
        (Shape::Select, ReconciledFlag::AllBlank),
        (Shape::Text, ReconciledFlag::AllBlank),
    ] {
        assert_eq!(reconcile_column(shape, "T0: x", &refs, 2).result().flag, flag);
        assert_eq!(reconcile_column(shape, "T0: x", &Vec::new(), 0).result().flag, flag);
    }
}

#[test]
fn a_table_is_reconciled_subject_by_subject() {
    let same = |value: &str| FlatField::Same { value: value.to_string() };
    let pick = |value: &str| FlatField::Select { value: value.to_string() };
    let mut flat = Flat::new("12", "plants");
    flat.add_row(&row(&[
        ("subject_id", same("s2")),
        ("T0: colour", pick("red")),
        ("T1: leaf", FlatField::Box_ { left: 0, top: 0, right: 10, bottom: 10 }),
    ]))
    .unwrap();
    flat.add_row(&row(&[("subject_id", same("s1")), ("T0: colour", pick("blue"))])).unwrap();
    flat.add_row(&row(&[
        ("subject_id", same("s2")),
        ("T0: colour", pick("red")),
        ("T1: leaf", FlatField::Box_ { left: 2, top: 2, right: 14, bottom: 14 }),
        ("user_name", FlatField::NoOp { value: "ann".to_string() }),
    ]))
    .unwrap();
    flat.add_row(&row(&[("subject_id", same("s2")), ("T0: colour", pick("green"))])).unwrap();

    let mut reconciled = Reconciled::new("12", "plants");
    assert_eq!(reconciled.row_count(), 0);
    assert_eq!(reconciled.reconcile(&flat), Ok(()));
    assert_eq!(reconciled.workflow_id, "12");
    assert_eq!(reconciled.workflow_name, "plants");
    assert_eq!(
        reconciled.columns(),
        &vec![
            "subject_id".to_string(),
            "T0: colour".to_string(),
            "T1: leaf".to_string(),
            "user_name".to_string()
        ]
    );
    assert_eq!(
        reconciled.groups(),
        &vec![
            Group { subject_id: "s1".to_string(), rows: vec![1] },
            Group { subject_id: "s2".to_string(), rows: vec![0, 2, 3] },
        ]
    );
    assert_eq!(reconciled.row_count(), 2);
    for index in 0..2 {
        let keys: Vec<&String> = reconciled.row(index).keys().collect();
        assert_eq!(keys, reconciled.columns().iter().collect::<Vec<&String>>());
    }
    assert_eq!(
        reconciled.row(1)["T0: colour"].result().notes,
        "Majority match, 2 of 3"
    );
    let empty = |notes: &str| ReconciledResult { flag: ReconciledFlag::Empty, notes: notes.to_string() };
    assert_eq!(
        reconciled.row(0).values().cloned().collect::<Vec<ReconciledField>>(),
        vec![
            ReconciledField::Same { value: "s1".to_string(), result: okay("") },
            ReconciledField::Select {
                value: "blue".to_string(),
                result: ReconciledResult {
                    flag: ReconciledFlag::OnlyOne,
                    notes: "Only 1 answer among 1".to_string(),
                },
            },
            ReconciledField::Box_ {
                left: 0,
                top: 0,
                right: 0,
                bottom: 0,
                result: empty("There are no box records"),
            },
            ReconciledField::NoOp { value: String::new(), result: empty("There are no records") },
        ]
    );
    assert_eq!(
        reconciled.row(1).values().cloned().collect::<Vec<ReconciledField>>(),
        vec![
            ReconciledField::Same { value: "s2".to_string(), result: okay("") },
            ReconciledField::Select {
                value: "red".to_string(),
                result: ReconciledResult {
                    flag: ReconciledFlag::Majority,
                    notes: "Majority match, 2 of 3".to_string(),
                },
            },
            ReconciledField::Box_ {
                left: 1,
                top: 1,
                right: 12,
                bottom: 12,
                result: okay("There are 2 box records"),
            },
            ReconciledField::NoOp { value: "ann".to_string(), result: okay("") },
        ]
    );
}

#[test]
fn a_table_with_a_row_without_subject_is_not_reconciled() {
    let mut flat = Flat::new("12", "plants");
    flat.add_row(&row(&[("T0: colour", FlatField::Select { value: "red".to_string() })])).unwrap();
    let mut reconciled = Reconciled::new("12", "plants");
    assert_eq!(reconciled.reconcile(&flat), Err(NoSubject { row: 0 }));
    assert_eq!(reconciled.row_count(), 0);
    assert!(reconciled.columns().is_empty());
}

#[test]
fn a_reconciled_table_is_written_with_flags_and_notes() {
    let same = |value: &str| FlatField::Same { value: value.to_string() };
    let text = |value: &str| FlatField::Text { value: value.to_string() };
    let mut flat = Flat::new("12", "plants");
    flat.add_row(&row(&[
        ("subject_id", same("s1")),
        ("T0: name", text("oak")),
        ("T1: scale 1 cm", line(0, 0, 10, 0)),
        ("T2: dot", FlatField::Point { x: 3, y: 4 }),
    ]))
    .unwrap();
    flat.add_row(&row(&[("subject_id", same("s1")), ("T0: name", text("oaks"))])).unwrap();
    let mut reconciled = Reconciled::new("12", "plants");
    assert_eq!(reconciled.fuzzy_distance(), 0);
    assert_eq!(reconciled.csv_records(), Vec::<Vec<String>>::new());
    reconciled.set_fuzzy_distance(1);
    assert_eq!(reconciled.fuzzy_distance(), 1);
    reconciled.reconcile(&flat).unwrap();
    let strings = |items: &[&str]| items.iter().map(|s| s.to_string()).collect::<Vec<String>>();
    assert_eq!(
        reconciled.csv_records(),
        vec![
            strings(&[
                "subject_id", "subject_id_flag", "subject_id_notes",
                "T0: name", "T0: name_flag", "T0: name_notes",
                "T1: scale 1 cm_x1", "T1: scale 1 cm_y1", "T1: scale 1 cm_x2", "T1: scale 1 cm_y2",
                "T1: scale 1 cm_length", "T1: scale 1 cm_pixel_length", "T1: scale 1 cm_factor",
                "T1: scale 1 cm_units", "T1: scale 1 cm_flag", "T1: scale 1 cm_notes",
                "T2: dot_x", "T2: dot_y", "T2: dot_flag", "T2: dot_notes",
            ]),
            strings(&[
                "s1", "Ok", "",
                "oak", "Fuzzy", "Fuzzy Unanimous match, 2 of 2",
                "0", "0", "10", "0", "0", "10000", "100000000", "cm", "Ok",
                "There is 1 length record",
                "3", "4", "Ok", "There is 1 point record",
            ]),
        ]
    );
    assert_eq!(reconciled_row(reconciled.row(0)), reconciled.csv_records()[1]);
    assert_eq!(reconciled.row(0).len(), 4);
    assert_eq!(reconciled.row(0).get_index(3).unwrap().0, "T2: dot");
}
