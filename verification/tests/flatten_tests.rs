use reconciler::classifications::{parse, set_cells};
use reconciler::flat::{FlatField, ShapeMismatch};
use reconciler::unreconciled::{unreconciled_records, Unreconciled};
use reconciler::flatten::{flatten, flatten_tasks, Fault, FlattenError, RawRecord, RecordError};
use reconciler::json::parse_json;
use reconciler::number::read_at;
use reconciler::sum::round_sum;

fn record(subject: &str, annotations: &str) -> RawRecord {
    RawRecord {
        subject_ids: subject.to_string(),
        annotations: annotations.to_string(),
        metadata: "{\"started_at\":\"2020-01-01T00:00:00Z\",\"finished_at\":\"2020-01-01T00:01:00Z\"}"
            .to_string(),
        subject_data: "{\"77\":{\"retired\":null,\"Filename\":\"a.jpg\",\"page\":3}}".to_string(),
        classification_id: Some("1001".to_string()),
        user_name: Some("ann".to_string()),
        gold_standard: None,
        expert: None,
        workflow_version: Some("12.3".to_string()),
    }
}

#[test]
fn box_corner_and_extent_are_rounded() {
    let node = parse_json(
        "{\"task\":\"T1\",\"tool_label\":\"Leaf\",\"x\":10.4,\"y\":20.5,\"width\":5.2,\"height\":1.0}",
    )
    .unwrap();
    let pairs = flatten_tasks(&node, "").unwrap();
    assert_eq!(pairs.len(), 1);
    assert_eq!(pairs[0].0, "T1: Leaf");
    assert_eq!(pairs[0].1, FlatField::Box_ { left: 10, top: 21, right: 16, bottom: 22 });
}

#[test]
fn tiny_exponent_rounds_to_zero() {
    let node = parse_json("{\"tool_label\":\"p\",\"x\":5.684341886080802e-14,\"y\":-0.5}").unwrap();
    let pairs = flatten_tasks(&node, "T0").unwrap();
    assert_eq!(pairs[0].0, "T0: p");
    assert_eq!(pairs[0].1, FlatField::Point { x: 0, y: -1 });
}

#[test]
fn list_values_are_sorted_and_joined() {
    let node =
        parse_json("{\"task\":\"T2\",\"task_label\":\"Colours\",\"value\":[\"red\",\"blue\",\"green\"]}")
            .unwrap();
    let pairs = flatten_tasks(&node, "").unwrap();
    assert_eq!(
        pairs[0].1,
        FlatField::List {
            values: vec!["blue".to_string(), "green".to_string(), "red".to_string()],
            value: "blue, green, red".to_string(),
        }
    );
}

#[test]
fn container_hands_its_task_id_down() {
    let node = parse_json(
        "{\"task\":\"T3\",\"value\":[{\"select_label\":\"Country\",\"value\":\"Peru\"},{\"task\":\"T4\",\"task_label\":\"Notes\",\"value\":null},{\"select_label\":\"State\"}]}",
    )
    .unwrap();
    let pairs = flatten_tasks(&node, "").unwrap();
    assert_eq!(pairs.len(), 3);
    assert_eq!(pairs[0].0, "T3: Country");
    assert_eq!(pairs[0].1, FlatField::Select { value: "Peru".to_string() });
    assert_eq!(pairs[1].0, "T4: Notes");
    assert_eq!(pairs[1].1, FlatField::Text { value: String::new() });
    assert_eq!(pairs[2].0, "T3: State");
    assert_eq!(pairs[2].1, FlatField::Select { value: String::new() });
}

#[test]
fn unknown_shape_is_a_fault() {
    let node = parse_json("{\"task\":\"T9\",\"frame\":0}").unwrap();
    let error = flatten_tasks(&node, "").unwrap_err();
    assert_eq!(error.fault, Fault::UnknownShape);
    assert_eq!(error.task_id, "T9");
}

#[test]
fn flatten_builds_a_padded_table() {
    let records = vec![
        record("77", "[{\"task\":\"T0\",\"task_label\":\"Text\",\"value\":\"abc\"}]"),
        record(
            "78",
            "[{\"task\":\"T1\",\"value\":[{\"tool_label\":\"Dot\",\"x\":1.5,\"y\":2.49}]}]",
        ),
    ];
    let table = flatten(&records, "5", "herbarium").unwrap();
    assert_eq!(table.workflow_id, "5");
    assert_eq!(table.workflow_name, "herbarium");
    assert_eq!(table.row_count(), 2);
    let keys: Vec<&String> = table.columns().keys().collect();
    assert_eq!(
        keys,
        vec![
            "subject_id",
            "T0: Text",
            "classification_id",
            "user_name",
            "workflow_version",
            "started_at",
            "finished_at",
            "Filename",
            "page",
            "T1: Dot"
        ]
    );
    let first = table.row(0);
    assert_eq!(first.len(), 10);
    assert_eq!(first["T0: Text"], FlatField::Text { value: "abc".to_string() });
    assert_eq!(first["T1: Dot"], FlatField::Null);
    assert_eq!(first["page"], FlatField::Same { value: "3".to_string() });
    assert_eq!(first["Filename"], FlatField::Same { value: "a.jpg".to_string() });
    assert_eq!(first["started_at"], FlatField::NoOp { value: "2020-01-01T00:00:00Z".to_string() });
    let second = table.row(1);
    assert_eq!(second["T0: Text"], FlatField::Null);
    assert_eq!(second["T1: Dot"], FlatField::Point { x: 2, y: 2 });
    assert_eq!(second["subject_id"], FlatField::Same { value: "78".to_string() });
}

#[test]
fn box_edges_are_sums_rounded_once() {
    let node = parse_json(
        "{\"tool_label\":\"b\",\"x\":0.1796875,\"y\":454.1796875,\"width\":0.3203125,\"height\":100.3203125}",
    )
    .unwrap();
    let pairs = flatten_tasks(&node, "T0").unwrap();
    assert_eq!(pairs[0].1, FlatField::Box_ { left: 0, top: 454, right: 1, bottom: 555 });
    let node = parse_json(
        "{\"tool_label\":\"b\",\"x\":-0.25,\"y\":1.4999999,\"width\":-0.25,\"height\":0.0000000999}",
    )
    .unwrap();
    let pairs = flatten_tasks(&node, "T0").unwrap();
    assert_eq!(pairs[0].1, FlatField::Box_ { left: 0, top: 1, right: -1, bottom: 1 });
}

#[test]
fn sums_take_every_written_digit() {
    assert_eq!(round_sum("0.1796875", "0.3203125"), Some(1));
    assert_eq!(round_sum("0.17968749", "0.3203125"), Some(0));
    assert_eq!(round_sum("454.1796875", "100.3203125"), Some(555));
    assert_eq!(round_sum("-0.5", "0"), Some(-1));
    assert_eq!(round_sum("-0.4999999999999999999", "0"), Some(0));
    assert_eq!(round_sum("1e2", "25e-1"), Some(103));
    assert_eq!(round_sum("2147483647", "-2147483647.5"), Some(-1));
    assert_eq!(round_sum("2147483648", "-2147483648.5"), None);
    assert_eq!(round_sum("2147483648", "2147483648"), Some(4294967296));
    assert_eq!(round_sum("2147483648.1", "0"), None);
    assert_eq!(round_sum("one", "0"), None);
    // one number with digits beyond the twenty-seventh decimal place
    assert_eq!(round_sum("1.2345678901234567e-12", "0.5"), Some(1));
    assert_eq!(round_sum("0.4999999999999999999999999999", "0"), Some(0));
    assert_eq!(round_sum("0.5000000000000000000000000000", "0"), Some(1));
    assert_eq!(round_sum("-1e-30", "0.5"), Some(0));
    assert_eq!(round_sum("1e-30", "-0.5"), Some(0));
    assert_eq!(round_sum("-1e-30", "-0.5"), Some(-1));
    assert_eq!(round_sum("1e-99999999999999999999999999999999999999999", "1.5"), Some(2));
    // both with such digits, away from a half
    assert_eq!(round_sum("1e-30", "1e-30"), Some(0));
    assert_eq!(round_sum("0.7500000000000000000000000000001", "1e-40"), Some(1));
    // and where what is read of them cannot tell
    assert_eq!(
        round_sum("0.2500000000000000000000000000001", "0.2499999999999999999999999999999"),
        None
    );
}

#[test]
fn a_number_is_read_at_a_chosen_place() {
    let reading = read_at("-12.3456", 2, 1_000_000).unwrap();
    assert_eq!((reading.magnitude, reading.negative, reading.cut), (1234, true, true));
    let reading = read_at("12.3", 2, 1_000_000).unwrap();
    assert_eq!((reading.magnitude, reading.negative, reading.cut), (1230, false, false));
    let reading = read_at("12.3400", 2, 1_000_000).unwrap();
    assert_eq!((reading.magnitude, reading.negative, reading.cut), (1234, false, false));
    let reading = read_at("1234e-3", 2, 1_000_000).unwrap();
    assert_eq!((reading.magnitude, reading.negative, reading.cut), (123, false, true));
    let reading = read_at("0e-99999999999999999999999999999999999999999", 2, 1_000_000).unwrap();
    assert_eq!((reading.magnitude, reading.negative, reading.cut), (0, false, false));
    assert!(read_at("10000.01", 2, 1_000_000).is_none());
    assert!(read_at("10000", 2, 1_000_000).is_some());
}

fn texts(values: &[&str]) -> Vec<String> {
    values.iter().map(|v| v.to_string()).collect()
}

#[test]
fn records_are_read_into_a_table_cell_by_cell() {
    let records = vec![
        record("s2", "[{\"task\":\"T0\",\"tool_label\":\"dot\",\"x\":1.2,\"y\":2.5}]"),
        record("s1", "[{\"task\":\"T1\",\"task_label\":\"note\",\"value\":\"hi\"}]"),
    ];
    let table = parse(&records, "7", "bees").unwrap();
    assert_eq!((table.workflow_id.as_str(), table.workflow_name.as_str()), ("7", "bees"));
    let names: Vec<&str> = table.names.iter().map(|n| n.0.as_str()).collect();
    assert_eq!(names[0], "subject_id");
    assert_eq!(names[1], "T0: dot");
    assert_eq!(*names.last().unwrap(), "T1: note");
    assert_eq!(table.rows.len(), 2);
    let width = table.names.len();
    assert!(table.rows.iter().all(|row| row.len() == width));
    assert_eq!(table.rows[0][0], FlatField::Same { value: "s2".to_string() });
    assert_eq!(table.rows[0][1], FlatField::Point { x: 1, y: 3 });
    assert_eq!(table.rows[0][width - 1], FlatField::Null);
    assert_eq!(table.rows[1][1], FlatField::Null);
    assert_eq!(table.rows[1][width - 1], FlatField::Text { value: "hi".to_string() });
    let flat = flatten(&records, "7", "bees").unwrap();
    assert_eq!(flat.column_count(), width);
    assert_eq!(unreconciled_records(&table).len(), 3);
    assert_eq!(parse(&Vec::new(), "7", "bees").unwrap().rows.len(), 0);
}

#[test]
fn reading_ends_at_the_first_record_that_fails() {
    let records = vec![
        record("s1", "[{\"task\":\"T0\",\"tool_label\":\"dot\",\"x\":1,\"y\":2}]"),
        record("s2", "[{\"task\":\"T0\",\"task_label\":\"dot\",\"value\":\"hi\"}]"),
        record("s3", "no json"),
    ];
    assert_eq!(
        parse(&records, "7", "bees").err(),
        Some(FlattenError::Shape { row: 1, column: "T0: dot".to_string() })
    );
    assert_eq!(
        parse(&records[2..].to_vec(), "7", "bees").err(),
        Some(FlattenError::Record { row: 0, error: RecordError::Annotations })
    );
}

#[test]
fn cells_are_set_until_one_is_refused() {
    let mut table = Unreconciled::new("7", "bees");
    table.add_row();
    let pairs = vec![
        ("a".to_string(), FlatField::Point { x: 1, y: 2 }),
        ("b".to_string(), FlatField::Text { value: "t".to_string() }),
        ("a".to_string(), FlatField::Point { x: 3, y: 4 }),
    ];
    assert_eq!(set_cells(&mut table, &pairs), Ok(()));
    assert_eq!(unreconciled_records(&table), vec![texts(&["a_x", "a_y", "b"]), texts(&["3", "4", "t"])]);
    let more = vec![
        ("c".to_string(), FlatField::Same { value: "s".to_string() }),
        ("b".to_string(), FlatField::Same { value: "s".to_string() }),
        ("d".to_string(), FlatField::Same { value: "s".to_string() }),
    ];
    assert_eq!(set_cells(&mut table, &more), Err(ShapeMismatch { column: "b".to_string() }));
    assert_eq!(table.names.len(), 3);
}

#[test]
fn the_order_of_siblings_does_not_matter_at_any_depth() {
    let leaf = |label: &str, x: i32| format!("{{\"tool_label\":\"{label}\",\"x\":{x},\"y\":1}}");
    let inner = |task: &str, items: &[String]| {
        format!("{{\"task\":\"{task}\",\"value\":[{}]}}", items.join(","))
    };
    let one = inner(
        "T0",
        &[
            inner("T1", &[leaf("a", 1), leaf("b", 2), leaf("c", 3)]),
            leaf("d", 4),
            inner("T2", &[leaf("a", 5), inner("T3", &[leaf("e", 6), leaf("f", 7)])]),
        ],
    );
    let other = inner(
        "T0",
        &[
            inner("T2", &[inner("T3", &[leaf("f", 7), leaf("e", 6)]), leaf("a", 5)]),
            inner("T1", &[leaf("c", 3), leaf("a", 1), leaf("b", 2)]),
            leaf("d", 4),
        ],
    );
    let first = flatten_tasks(&parse_json(&one).unwrap(), "").unwrap();
    let second = flatten_tasks(&parse_json(&other).unwrap(), "").unwrap();
    assert_eq!(first.len(), 7);
    assert_eq!(first[0], ("T1: a".to_string(), FlatField::Point { x: 1, y: 1 }));
    assert_eq!(second[0], ("T3: f".to_string(), FlatField::Point { x: 7, y: 1 }));
    assert_ne!(first, second);
    let mut sorted_first = first.clone();
    let mut sorted_second = second.clone();
    sorted_first.sort();
    sorted_second.sort();
    assert_eq!(sorted_first, sorted_second);
    let mut parsed = Unreconciled::new("1", "w");
    parsed.add_row();
    set_cells(&mut parsed, &first).unwrap();
    let mut other_parsed = Unreconciled::new("1", "w");
    other_parsed.add_row();
    set_cells(&mut other_parsed, &second).unwrap();
    let mut cells: Vec<(String, FlatField)> =
        parsed.names.iter().map(|n| n.0.clone()).zip(parsed.rows[0].iter().cloned()).collect();
    let mut other_cells: Vec<(String, FlatField)> = other_parsed
        .names
        .iter()
        .map(|n| n.0.clone())
        .zip(other_parsed.rows[0].iter().cloned())
        .collect();
    cells.sort();
    other_cells.sort();
    assert_eq!(cells, other_cells);
}
