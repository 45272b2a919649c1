use reconciler::flat::{Flat, FlatField, FlatRow, Shape, ShapeMismatch};
use reconciler::order::{Group, NoSubject};
use reconciler::flatten::{
    flatten, flatten_record, get_key, get_task_id, get_workflow_id, row_of, FlattenError, Fault,
    NodeError, RawRecord, RecordError,
};
use reconciler::json::{parse_json, JsonKind};

fn same(value: &str) -> FlatField {
    FlatField::Same { value: value.to_string() }
}

fn text(value: &str) -> FlatField {
    FlatField::Text { value: value.to_string() }
}

fn row(cells: &[(&str, FlatField)]) -> FlatRow {
    let mut row = FlatRow::new();
    for (key, value) in cells {
        row.insert(key.to_string(), value.clone());
    }
    row
}

fn keys(row: &FlatRow) -> Vec<String> {
    row.keys().cloned().collect()
}

fn record(subject: &str, annotations: &str) -> RawRecord {
    RawRecord {
        subject_ids: subject.to_string(),
        annotations: annotations.to_string(),
        metadata: "{}".to_string(),
        subject_data: "{}".to_string(),
        classification_id: None,
        user_name: None,
        gold_standard: None,
        expert: None,
        workflow_version: None,
    }
}

#[test]
fn json_is_read_into_a_tree() {
    let tree = parse_json(" {\"b\": [1, \"x\", null, true], \"a\": 2.50} ").unwrap();
    assert_eq!(tree.text, "{\"a\":2.5,\"b\":[1,\"x\",null,true]}");
    let a = tree.get("a").unwrap();
    assert!(matches!(a.kind, JsonKind::Number));
    assert_eq!(a.text, "2.5");
    let b = tree.get("b").unwrap();
    match &b.kind {
        JsonKind::Array(items) => {
            assert_eq!(items.len(), 4);
            assert!(matches!(items[0].kind, JsonKind::Number));
            assert!(matches!(&items[1].kind, JsonKind::Str(s) if s == "x"));
            assert_eq!(items[1].text, "\"x\"");
            assert!(matches!(items[2].kind, JsonKind::Null));
            assert!(matches!(items[3].kind, JsonKind::Bool(true)));
        }
        _ => panic!("not an array"),
    }
    assert!(tree.get("c").is_none());
    assert!(b.get("a").is_none());
}

#[test]
fn text_that_is_no_json_is_refused() {
    assert!(parse_json("").is_none());
    assert!(parse_json("{").is_none());
    assert!(parse_json("[1,]").is_none());
    assert!(parse_json("{\"a\":1} x").is_none());
}

#[test]
fn the_task_id_is_the_nodes_own_or_the_inherited_one() {
    let own = parse_json("{\"task\":\"T7\",\"value\":[]}").unwrap();
    assert_eq!(get_task_id(&own, "T1"), "T7");
    let none = parse_json("{\"value\":[]}").unwrap();
    assert_eq!(get_task_id(&none, "T1"), "T1");
    let number = parse_json("{\"task\":3}").unwrap();
    assert_eq!(get_task_id(&number, "T1"), "3");
    let array = parse_json("[1]").unwrap();
    assert_eq!(get_task_id(&array, ""), "");
}

#[test]
fn the_key_is_task_id_colon_space_label() {
    let own = parse_json("{\"task\":\"T7\"}").unwrap();
    assert_eq!(get_key("Leaf", &own, "T1"), "T7: Leaf");
    let none = parse_json("{}").unwrap();
    assert_eq!(get_key("Leaf", &none, "T1"), "T1: Leaf");
    assert_eq!(get_key("", &none, ""), ": ");
}

#[test]
fn the_key_does_not_depend_on_the_order_of_siblings() {
    let a = "{\"select_label\":\"Country\",\"value\":\"Peru\"}";
    let b = "{\"task\":\"T4\",\"task_label\":\"Notes\",\"value\":\"x\"}";
    let c = "{\"tool_label\":\"Dot\",\"x\":1,\"y\":2}";
    let one = parse_json(&format!("{{\"task\":\"T3\",\"value\":[{},{},{}]}}", a, b, c)).unwrap();
    let other = parse_json(&format!("{{\"task\":\"T3\",\"value\":[{},{},{}]}}", c, a, b)).unwrap();
    let mut first = reconciler::flatten::flatten_tasks(&one, "").unwrap();
    let mut second = reconciler::flatten::flatten_tasks(&other, "").unwrap();
    assert_ne!(first, second);
    first.sort();
    second.sort();
    assert_eq!(first, second);
    let names: Vec<&str> = first.iter().map(|pair| pair.0.as_str()).collect();
    assert_eq!(names, vec!["T3: Country", "T3: Dot", "T4: Notes"]);
}

#[test]
fn a_list_does_not_depend_on_the_order_of_its_answers() {
    let one = parse_json("{\"task_label\":\"L\",\"value\":[\"b\",\"c\",\"a\"]}").unwrap();
    let other = parse_json("{\"task_label\":\"L\",\"value\":[\"a\",\"b\",\"c\"]}").unwrap();
    let first = reconciler::flatten::flatten_tasks(&one, "T0").unwrap();
    let second = reconciler::flatten::flatten_tasks(&other, "T0").unwrap();
    assert_eq!(first, second);
    assert_eq!(
        first[0].1,
        FlatField::List {
            values: vec!["a".to_string(), "b".to_string(), "c".to_string()],
            value: "a, b, c".to_string(),
        }
    );
}

#[test]
fn an_empty_value_with_a_task_label_is_an_empty_list() {
    let node = parse_json("{\"task\":\"T0\",\"task_label\":\"Pick\",\"value\":[]}").unwrap();
    let pairs = reconciler::flatten::flatten_tasks(&node, "").unwrap();
    assert_eq!(pairs.len(), 1);
    assert_eq!(pairs[0].0, "T0: Pick");
    assert_eq!(pairs[0].1, FlatField::List { values: vec![], value: String::new() });
    let bare = parse_json("{\"task\":\"T0\",\"value\":[]}").unwrap();
    assert_eq!(reconciler::flatten::flatten_tasks(&bare, "").unwrap(), vec![]);
}

#[test]
fn a_length_is_read_with_rounded_ends() {
    let node =
        parse_json("{\"tool_label\":\"Wing\",\"x1\":0.49,\"y1\":0.5,\"x2\":-3.5,\"y2\":99.999}")
            .unwrap();
    let pairs = reconciler::flatten::flatten_tasks(&node, "T2").unwrap();
    assert_eq!(pairs[0].0, "T2: Wing");
    assert_eq!(pairs[0].1, FlatField::Length { x1: 0, y1: 1, x2: -4, y2: 100 });
}

#[test]
fn a_node_that_lacks_a_part_is_malformed() {
    for text in [
        "{\"task\":\"T1\",\"tool_label\":\"Leaf\",\"x\":1,\"y\":2,\"width\":3}",
        "{\"task\":\"T1\",\"tool_label\":\"Leaf\",\"x\":\"1\",\"y\":2}",
        "{\"task\":\"T1\",\"tool_label\":7,\"x\":1,\"y\":2}",
        "{\"task\":\"T1\",\"tool_label\":\"Leaf\",\"x\":1e10,\"y\":2}",
        "{\"task\":\"T1\",\"tool_label\":\"Leaf\",\"x1\":1,\"y1\":2,\"x2\":3}",
        "{\"task\":\"T1\",\"select_label\":\"S\",\"value\":5}",
        "{\"task\":\"T1\",\"task_label\":\"S\",\"value\":{}}",
        "{\"task\":\"T1\",\"task_label\":\"S\",\"value\":[\"a\",1]}",
        "{\"task\":\"T1\",\"value\":[\"a\",\"b\"]}",
    ] {
        let node = parse_json(text).unwrap();
        assert_eq!(
            reconciler::flatten::flatten_tasks(&node, ""),
            Err(NodeError { fault: Fault::Malformed, task_id: "T1".to_string() }),
            "{}",
            text
        );
    }
}

#[test]
fn a_node_of_no_shape_is_unknown() {
    for text in ["{}", "[]", "3", "\"x\"", "null", "{\"tool_label\":\"x\"}", "{\"x\":1,\"y\":2}"] {
        let node = parse_json(text).unwrap();
        assert_eq!(
            reconciler::flatten::flatten_tasks(&node, "T5"),
            Err(NodeError { fault: Fault::UnknownShape, task_id: "T5".to_string() }),
            "{}",
            text
        );
    }
    let nested = parse_json("{\"task\":\"T1\",\"value\":[{\"task\":\"T2\",\"value\":[{\"frame\":1}]}]}").unwrap();
    assert_eq!(
        reconciler::flatten::flatten_tasks(&nested, ""),
        Err(NodeError { fault: Fault::UnknownShape, task_id: "T2".to_string() })
    );
}

#[test]
fn a_record_is_flattened_in_the_order_of_its_parts() {
    let mut raw = record("9", "[{\"task\":\"T0\",\"task_label\":\"Q\",\"value\":\"yes\"}]");
    raw.metadata = "{\"finished_at\":\"later\",\"started_at\":\"\\\"then\",\"other\":1}".to_string();
    raw.subject_data = "{\"9\":{\"retired\":{\"id\":1},\"Name\":\"x\",\"n\":null},\"note\":3,\"10\":{\"Name\":\"y\"}}".to_string();
    raw.classification_id = Some("c1".to_string());
    raw.expert = Some(String::new());
    let pairs = flatten_record(&raw).unwrap();
    let noop = |value: &str| FlatField::NoOp { value: value.to_string() };
    assert_eq!(
        pairs,
        vec![
            ("subject_id".to_string(), same("9")),
            ("T0: Q".to_string(), text("yes")),
            ("classification_id".to_string(), noop("c1")),
            ("expert".to_string(), noop("")),
            ("started_at".to_string(), noop("\\\"then")),
            ("finished_at".to_string(), noop("later")),
            ("Name".to_string(), same("y")),
            ("Name".to_string(), same("x")),
            ("n".to_string(), same("null")),
        ]
    );
    let flat_row = row_of(&pairs);
    assert_eq!(
        keys(&flat_row),
        vec!["subject_id", "T0: Q", "classification_id", "expert", "started_at", "finished_at", "Name", "n"]
    );
    assert_eq!(flat_row["Name"], same("x"));
}

#[test]
fn a_record_with_a_part_that_cannot_be_read_is_refused() {
    assert_eq!(flatten_record(&record("1", "{")), Err(RecordError::Annotations));
    assert_eq!(flatten_record(&record("1", "{}")), Err(RecordError::Annotations));
    let mut raw = record("1", "[]");
    raw.metadata = "[]".to_string();
    assert_eq!(flatten_record(&raw), Err(RecordError::Metadata));
    raw.metadata = "nope".to_string();
    assert_eq!(flatten_record(&raw), Err(RecordError::Metadata));
    raw.metadata = "{}".to_string();
    raw.subject_data = "7".to_string();
    assert_eq!(flatten_record(&raw), Err(RecordError::SubjectData));
    raw.subject_data = "{\"a\":".to_string();
    assert_eq!(flatten_record(&raw), Err(RecordError::SubjectData));
    assert_eq!(
        flatten_record(&record("1", "[{\"task\":\"T3\"}]")),
        Err(RecordError::Node(NodeError { fault: Fault::UnknownShape, task_id: "T3".to_string() }))
    );
}

#[test]
fn flatten_names_the_record_that_fails() {
    let good = record("1", "[{\"task\":\"T0\",\"task_label\":\"Q\",\"value\":\"yes\"}]");
    let bad = record("2", "[");
    assert_eq!(
        flatten(&vec![good.clone(), good.clone(), bad], "1", "w").unwrap_err(),
        FlattenError::Record { row: 2, error: RecordError::Annotations }
    );
    let clash = record("3", "[{\"task\":\"T0\",\"select_label\":\"Q\",\"value\":\"yes\"}]");
    assert_eq!(
        flatten(&vec![good, clash], "1", "w").unwrap_err(),
        FlattenError::Shape { row: 1, column: "T0: Q".to_string() }
    );
    let empty = flatten(&Vec::new(), "1", "w").unwrap();
    assert_eq!((empty.row_count(), empty.column_count()), (0, 0));
}

#[test]
fn every_row_has_a_cell_for_every_column_at_every_point() {
    let mut table = Flat::new("1", "w");
    let rows = vec![
        row(&[("subject_id", same("b")), ("x", text("1"))]),
        row(&[("y", FlatField::Point { x: 1, y: 2 }), ("subject_id", same("a"))]),
        row(&[("z", FlatField::Null), ("x", FlatField::Null)]),
        row(&[("z", FlatField::Box_ { left: 1, top: 2, right: 3, bottom: 4 }), ("x", text("2"))]),
    ];
    let mut columns: Vec<Vec<&str>> = vec![
        vec!["subject_id", "x"],
        vec!["subject_id", "x", "y"],
        vec!["subject_id", "x", "y"],
        vec!["subject_id", "x", "y", "z"],
    ];
    columns.reverse();
    for (count, added) in rows.iter().enumerate() {
        table.add_row(added).unwrap();
        let expected = columns.pop().unwrap();
        assert_eq!(keys(table.columns()), expected);
        assert_eq!(table.row_count(), count + 1);
        for index in 0..table.row_count() {
            assert_eq!(keys(table.row(index)), expected);
        }
    }
    assert_eq!(table.row(0)["y"], FlatField::Null);
    assert_eq!(table.row(0)["z"], FlatField::Null);
    assert_eq!(table.row(1)["x"], FlatField::Null);
    assert_eq!(table.row(1)["y"], FlatField::Point { x: 1, y: 2 });
    assert_eq!(table.row(2)["subject_id"], FlatField::Null);
    assert_eq!(table.row(3)["x"], text("2"));
    assert_eq!(table.columns()["x"], text("1"));
    assert_eq!(table.column(3).0, "z");
    assert_eq!(table.column(3).1.shape(), Shape::Box_);
    assert_eq!(table.cell(3, 3), &FlatField::Box_ { left: 1, top: 2, right: 3, bottom: 4 });
}

#[test]
fn a_value_of_another_shape_is_refused_and_changes_nothing() {
    let mut table = Flat::new("1", "w");
    table.add_row(&row(&[("a", text("1")), ("b", same("2"))])).unwrap();
    let error = table
        .add_row(&row(&[("new", text("n")), ("b", text("3")), ("a", same("4"))]))
        .unwrap_err();
    assert_eq!(error, ShapeMismatch { column: "b".to_string() });
    assert_eq!(keys(table.columns()), vec!["a", "b"]);
    assert_eq!(table.row_count(), 1);
    assert_eq!(keys(table.row(0)), vec!["a", "b"]);
}

#[test]
fn the_written_table_has_a_name_for_each_number() {
    let mut table = Flat::new("1", "w");
    table
        .add_row(&row(&[
            ("subject_id", same("s1")),
            ("T0: box", FlatField::Box_ { left: 1, top: -2, right: 30, bottom: 4 }),
            ("T1: line", FlatField::Length { x1: 5, y1: 6, x2: 7, y2: 8 }),
            ("T2: dot", FlatField::Point { x: 9, y: 10 }),
            (
                "T3: list",
                FlatField::List {
                    values: vec!["a".to_string(), "b".to_string()],
                    value: "a, b".to_string(),
                },
            ),
            ("user_name", FlatField::NoOp { value: "ann".to_string() }),
            ("T4: pick", FlatField::Select { value: "red".to_string() }),
            ("T5: text", text("hello, world")),
        ]))
        .unwrap();
    table.add_row(&row(&[("subject_id", same("s2"))])).unwrap();
    let header: Vec<String> = [
        "subject_id", "T0: box_left", "T0: box_top", "T0: box_right", "T0: box_bottom",
        "T1: line_x1", "T1: line_y1", "T1: line_x2", "T1: line_y2", "T2: dot_x", "T2: dot_y",
        "T3: list", "user_name", "T4: pick", "T5: text",
    ]
    .iter()
    .map(|s| s.to_string())
    .collect();
    assert_eq!(table.csv_header(), header);
    let first: Vec<String> = [
        "s1", "1", "-2", "30", "4", "5", "6", "7", "8", "9", "10", "a, b", "ann", "red",
        "hello, world",
    ]
    .iter()
    .map(|s| s.to_string())
    .collect();
    assert_eq!(table.csv_row(table.row(0)), first);
    let second: Vec<String> =
        ["s2", "", "", "", "", "", "", "", "", "", "", "", "", "", ""].iter().map(|s| s.to_string()).collect();
    assert_eq!(table.csv_row(table.row(1)), second);
    assert_eq!(table.csv_records(), vec![header, first.clone(), second]);
    let loose = row(&[("T2: dot", text("no dot")), ("subject_id", same("s3")), ("T5: text", text("t"))]);
    let mut third = vec![String::new(); 15];
    third[0] = "s3".to_string();
    third[14] = "t".to_string();
    assert_eq!(table.csv_row(&loose), third);
}

#[test]
fn rows_are_grouped_by_subject_in_ascending_order() {
    let mut table = Flat::new("1", "w");
    for subject in ["b", "a", "c", "a", "b", "a"] {
        table.add_row(&row(&[("subject_id", same(subject))])).unwrap();
    }
    assert_eq!(
        table.grouping(),
        Ok(vec![
            Group { subject_id: "a".to_string(), rows: vec![1, 3, 5] },
            Group { subject_id: "b".to_string(), rows: vec![0, 4] },
            Group { subject_id: "c".to_string(), rows: vec![2] },
        ])
    );
    assert_eq!(Flat::new("1", "w").grouping(), Ok(vec![]));
}

#[test]
fn each_subject_is_given_its_rows_in_the_order_of_the_table() {
    let mut table = Flat::new("1", "w");
    for (subject, mark) in [("b", "1"), ("a", "2"), ("c", "3"), ("a", "4"), ("b", "5"), ("a", "6")] {
        table.add_row(&row(&[("subject_id", same(subject)), ("mark", text(mark))])).unwrap();
    }
    let grouped = table.group().unwrap();
    let subjects: Vec<&str> = grouped.keys().map(|k| k.as_str()).collect();
    assert_eq!(subjects, vec!["a", "b", "c"]);
    let marks = |subject: &str| -> Vec<FlatField> {
        grouped[subject].iter().map(|r| r["mark"].clone()).collect()
    };
    assert_eq!(marks("a"), vec![text("2"), text("4"), text("6")]);
    assert_eq!(marks("b"), vec![text("1"), text("5")]);
    assert_eq!(marks("c"), vec![text("3")]);
    assert_eq!(grouped["a"][0], *table.row(1));
    assert!(Flat::new("1", "w").group().unwrap().is_empty());
}

#[test]
fn a_row_without_a_subject_cannot_be_grouped() {
    let mut table = Flat::new("1", "w");
    table.add_row(&row(&[("subject_id", same("a")), ("x", text("1"))])).unwrap();
    table.add_row(&row(&[("x", text("2"))])).unwrap();
    table.add_row(&row(&[("x", text("3"))])).unwrap();
    assert_eq!(table.grouping(), Err(NoSubject { row: 1 }));
    assert_eq!(table.group().err(), Some(NoSubject { row: 1 }));
    let mut other = Flat::new("1", "w");
    other.add_row(&row(&[("subject_id", text("a"))])).unwrap();
    assert_eq!(other.grouping(), Err(NoSubject { row: 0 }));
    assert_eq!(other.group().err(), Some(NoSubject { row: 0 }));
}

#[test]
fn rows_are_sorted_by_subject_and_keep_their_order_within_it() {
    let mut table = Flat::new("1", "w");
    for (subject, mark) in [("b", "1"), ("a", "2"), ("c", "3"), ("a", "4"), ("b", "5"), ("", "6")] {
        table.add_row(&row(&[("subject_id", same(subject)), ("mark", text(mark))])).unwrap();
    }
    table.add_row(&row(&[("mark", text("7"))])).unwrap();
    table.sort();
    let marks: Vec<FlatField> = (0..table.row_count()).map(|i| table.row(i)["mark"].clone()).collect();
    assert_eq!(marks, vec![text("6"), text("7"), text("2"), text("4"), text("1"), text("5"), text("3")]);
    assert_eq!(keys(table.columns()), vec!["subject_id", "mark"]);
}

#[test]
fn the_workflow_id_is_the_given_or_the_only_one() {
    let ids = |items: &[&str]| items.iter().map(|s| s.to_string()).collect::<Vec<String>>();
    assert_eq!(get_workflow_id(&Some("7".to_string()), &ids(&["1", "2"])), Some("7".to_string()));
    assert_eq!(get_workflow_id(&Some("7".to_string()), &ids(&[])), Some("7".to_string()));
    assert_eq!(get_workflow_id(&None, &ids(&["5", "5", "5"])), Some("5".to_string()));
    assert_eq!(get_workflow_id(&None, &ids(&["5"])), Some("5".to_string()));
    assert_eq!(get_workflow_id(&None, &ids(&["5", "5", "6"])), None);
    assert_eq!(get_workflow_id(&None, &ids(&[])), None);
}

#[test]
fn a_record_is_flattened_from_trees_written_by_hand() {
    let number = |text: &str| reconciler::json::Json { text: text.to_string(), kind: JsonKind::Number };
    let string = |value: &str| reconciler::json::Json {
        text: format!("\"{}\"", value),
        kind: JsonKind::Str(value.to_string()),
    };
    let object = |entries: Vec<(&str, reconciler::json::Json)>| reconciler::json::Json {
        text: String::new(),
        kind: JsonKind::Object(entries.into_iter().map(|(k, v)| (k.to_string(), v)).collect()),
    };
    let array = |items: Vec<reconciler::json::Json>| reconciler::json::Json {
        text: String::new(),
        kind: JsonKind::Array(items),
    };
    let annotations = array(vec![object(vec![
        ("task", string("T0")),
        ("tool_label", string("Leaf")),
        ("x", number("1.5")),
        ("y", number("2")),
        ("width", number("0.1")),
        ("height", number("1.4")),
    ])]);
    let metadata = object(vec![("started_at", string("now"))]);
    let subject_data = object(vec![("1", object(vec![("n", number("7")), ("retired", number("0"))]))]);
    let raw = record("1", "unread");
    let pairs = reconciler::flatten::flatten_parts(
        &raw,
        &Some(annotations),
        &Some(metadata),
        &Some(subject_data),
    )
    .unwrap();
    assert_eq!(
        pairs,
        vec![
            ("subject_id".to_string(), same("1")),
            ("T0: Leaf".to_string(), FlatField::Box_ { left: 2, top: 2, right: 2, bottom: 3 }),
            ("started_at".to_string(), FlatField::NoOp { value: "now".to_string() }),
            ("n".to_string(), same("7")),
        ]
    );
    assert_eq!(
        reconciler::flatten::flatten_parts(&raw, &None, &None, &None),
        Err(RecordError::Annotations)
    );
    assert_eq!(
        reconciler::flatten::flatten_parts(&raw, &Some(array(vec![])), &None, &None),
        Err(RecordError::Metadata)
    );
}
