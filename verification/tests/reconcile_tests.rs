use reconciler::flat::FlatField;
use reconciler::reconcile_fields::{
    boxes_with, reconcile_boxes, reconcile_list, reconcile_noop, reconcile_points, reconcile_same,
    reconcile_select, reconcile_text,
};
use reconciler::reconciled::{ReconciledField, ReconciledFlag, ReconciledResult};

fn select(value: &str) -> FlatField {
    FlatField::Select { value: value.to_string() }
}

fn same(value: &str) -> FlatField {
    FlatField::Same { value: value.to_string() }
}

fn refs(fields: &[FlatField]) -> Vec<&FlatField> {
    fields.iter().collect()
}

#[test]
fn two_boxes_reconcile_to_their_mean() {
    let fields = vec![
        FlatField::Box_ { left: 0, top: 0, right: 10, bottom: 10 },
        FlatField::Box_ { left: 2, top: 2, right: 14, bottom: 14 },
    ];
    let cell = reconcile_boxes(&refs(&fields));
    assert_eq!(
        cell,
        ReconciledField::Box_ {
            left: 1,
            top: 1,
            right: 12,
            bottom: 12,
            result: ReconciledResult {
                flag: ReconciledFlag::Okay,
                notes: "There are 2 box records".to_string(),
            },
        }
    );
}

#[test]
fn one_box_is_counted_in_the_singular() {
    let fields = vec![FlatField::Null, FlatField::Box_ { left: -3, top: 7, right: 2, bottom: 9 }];
    let cell = reconcile_boxes(&refs(&fields));
    assert_eq!(
        cell,
        ReconciledField::Box_ {
            left: -3,
            top: 7,
            right: 2,
            bottom: 9,
            result: ReconciledResult {
                flag: ReconciledFlag::Okay,
                notes: "There is 1 box record".to_string(),
            },
        }
    );
}

#[test]
fn box_means_round_halves_away_from_zero() {
    let fields = vec![
        FlatField::Box_ { left: 0, top: -1, right: 1, bottom: -2 },
        FlatField::Box_ { left: 1, top: 0, right: 2, bottom: -1 },
    ];
    let cell = boxes_with(&refs(&fields), "are", "records");
    match cell {
        ReconciledField::Box_ { left, top, right, bottom, .. } => {
            assert_eq!((left, top, right, bottom), (1, -1, 2, -2));
        }
        _ => panic!("not a box"),
    }
}

#[test]
fn no_box_is_empty() {
    let fields = vec![FlatField::Null, FlatField::Null];
    let cell = reconcile_boxes(&refs(&fields));
    assert_eq!(
        cell,
        ReconciledField::Box_ {
            left: 0,
            top: 0,
            right: 0,
            bottom: 0,
            result: ReconciledResult {
                flag: ReconciledFlag::Empty,
                notes: "There are no box records".to_string(),
            },
        }
    );
}

#[test]
fn points_reconcile_to_their_mean() {
    let fields = vec![
        FlatField::Point { x: 10, y: 20 },
        FlatField::Point { x: 11, y: 21 },
        FlatField::Point { x: 13, y: 20 },
    ];
    let cell = reconcile_points(&refs(&fields));
    assert_eq!(
        cell,
        ReconciledField::Point {
            x: 11,
            y: 20,
            result: ReconciledResult {
                flag: ReconciledFlag::Okay,
                notes: "There are 3 point records".to_string(),
            },
        }
    );
}

#[test]
fn same_values_that_agree_are_okay() {
    let fields = vec![same("a.jpg"), FlatField::Null, same("a.jpg")];
    let cell = reconcile_same(&refs(&fields));
    assert_eq!(
        cell,
        ReconciledField::Same {
            value: "a.jpg".to_string(),
            result: ReconciledResult { flag: ReconciledFlag::Okay, notes: String::new() },
        }
    );
}

#[test]
fn same_values_that_differ_are_an_error() {
    let fields = vec![same("b"), same("a"), same("b"), same("c")];
    let cell = reconcile_same(&refs(&fields));
    assert_eq!(
        cell,
        ReconciledField::Same {
            value: String::new(),
            result: ReconciledResult {
                flag: ReconciledFlag::Error,
                notes: "Not all values are the same: a, b, c".to_string(),
            },
        }
    );
}

#[test]
fn no_same_value_is_empty() {
    let fields: Vec<FlatField> = vec![FlatField::Null];
    let cell = reconcile_same(&refs(&fields));
    assert_eq!(
        cell,
        ReconciledField::Same {
            value: String::new(),
            result: ReconciledResult {
                flag: ReconciledFlag::Empty,
                notes: "There are no records".to_string(),
            },
        }
    );
}

#[test]
fn votes_without_plurality_do_not_match() {
    let fields = vec![select("red"), select("blue"), select("red"), select("blue")];
    let cell = reconcile_select(&refs(&fields));
    assert_eq!(
        cell,
        ReconciledField::Select {
            value: "red".to_string(),
            result: ReconciledResult {
                flag: ReconciledFlag::NoMatch,
                notes: "No match among 4, tied: red, blue".to_string(),
            },
        }
    );
}

#[test]
fn votes_with_plurality_give_a_majority() {
    let fields = vec![select("red"), select("red"), select("blue")];
    let cell = reconcile_select(&refs(&fields));
    assert_eq!(
        cell,
        ReconciledField::Select {
            value: "red".to_string(),
            result: ReconciledResult {
                flag: ReconciledFlag::Majority,
                notes: "Majority match, 2 of 3".to_string(),
            },
        }
    );
}

#[test]
fn a_single_vote_among_blanks_is_only_one() {
    let fields = vec![select(""), select("red"), FlatField::Null, select("")];
    let cell = reconcile_select(&refs(&fields));
    assert_eq!(
        cell,
        ReconciledField::Select {
            value: "red".to_string(),
            result: ReconciledResult {
                flag: ReconciledFlag::OnlyOne,
                notes: "Only 1 answer among 4".to_string(),
            },
        }
    );
}

#[test]
fn equal_votes_of_all_are_unanimous() {
    let fields = vec![
        FlatField::Text { value: "Quercus".to_string() },
        FlatField::Text { value: "Quercus".to_string() },
    ];
    let cell = reconcile_text(&refs(&fields), 0);
    assert_eq!(
        cell,
        ReconciledField::Text {
            value: "Quercus".to_string(),
            result: ReconciledResult {
                flag: ReconciledFlag::Unanimous,
                notes: "Unanimous match, 2 of 2".to_string(),
            },
        }
    );
}

#[test]
fn blank_votes_are_all_blank() {
    let fields = vec![select(""), FlatField::Null];
    let cell = reconcile_select(&refs(&fields));
    assert_eq!(
        cell,
        ReconciledField::Select {
            value: String::new(),
            result: ReconciledResult {
                flag: ReconciledFlag::AllBlank,
                notes: "All 2 blank".to_string(),
            },
        }
    );
    let none: Vec<&FlatField> = Vec::new();
    assert_eq!(reconcile_select(&none).result().flag, ReconciledFlag::AllBlank);
}

#[test]
fn lists_are_voted_on_as_joined_texts() {
    let list = |items: &[&str]| FlatField::List {
        values: items.iter().map(|s| s.to_string()).collect(),
        value: items.join(", "),
    };
    let fields = vec![list(&["a", "b"]), list(&["a"]), list(&["a", "b"])];
    let cell = reconcile_list(&refs(&fields));
    assert_eq!(
        cell,
        ReconciledField::List {
            value: "a, b".to_string(),
            result: ReconciledResult {
                flag: ReconciledFlag::Majority,
                notes: "Majority match, 2 of 3".to_string(),
            },
        }
    );
}

#[test]
fn administrative_values_pass_through() {
    let fields = vec![
        FlatField::Null,
        FlatField::NoOp { value: "ann".to_string() },
        FlatField::NoOp { value: "bob".to_string() },
    ];
    let cell = reconcile_noop(&refs(&fields));
    assert_eq!(
        cell,
        ReconciledField::NoOp {
            value: "ann".to_string(),
            result: ReconciledResult { flag: ReconciledFlag::Okay, notes: String::new() },
        }
    );
}

#[test]
fn near_texts_are_merged_where_the_texts_find_no_match() {
    let text = |value: &str| FlatField::Text { value: value.to_string() };
    let fields = vec![text("Quercus alba"), text("Pinus"), text("Quercus alba."), text("")];
    let exact = reconcile_text(&refs(&fields), 0);
    assert_eq!(
        exact,
        ReconciledField::Text {
            value: "Quercus alba".to_string(),
            result: ReconciledResult {
                flag: ReconciledFlag::NoMatch,
                notes: "No match among 4, tied: Quercus alba, Pinus, Quercus alba.".to_string(),
            },
        }
    );
    let fuzzy = reconcile_text(&refs(&fields), 1);
    assert_eq!(
        fuzzy,
        ReconciledField::Text {
            value: "Quercus alba".to_string(),
            result: ReconciledResult {
                flag: ReconciledFlag::Fuzzy,
                notes: "Fuzzy Majority match, 2 of 4".to_string(),
            },
        }
    );
    let all = vec![text("colour"), text("color"), text("colou")];
    assert_eq!(reconcile_text(&refs(&all), 1).result().flag, ReconciledFlag::Fuzzy);
    assert_eq!(
        reconcile_text(&refs(&all), 1).result().notes,
        "Fuzzy Unanimous match, 3 of 3"
    );
    let far = vec![text("oak"), text("pine")];
    assert_eq!(reconcile_text(&refs(&far), 2).result().flag, ReconciledFlag::NoMatch);
    let decided = vec![text("oak"), text("oak"), text("oaks")];
    assert_eq!(
        reconcile_text(&refs(&decided), 3).result(),
        &ReconciledResult {
            flag: ReconciledFlag::Majority,
            notes: "Majority match, 2 of 3".to_string(),
        }
    );
}
