//! Flattening: from the nested annotation tree of one classification to
//! pairs of column key and value.

use crate::flat::{
    clash_index, distinct_keys, fitted, grown, has_clash, has_key, inserted, key_index,
    lemma_add_row_aligned, lemma_first_exists, padded_all, row_entries, row_insert, row_new,
    table_wf, Entries, FieldView, Flat, FlatField, FlatRow,
};
use crate::json::{parse_json, parsed, Json, JsonKind};
use crate::number::{bounded_micro, read_micro, round_micro, rounded};
use crate::sum::{round_sum, rounded_sum};
use crate::text::{
    join, joined, lemma_ascending_unique, lemma_sort_idempotent, lemma_sort_order_free,
    lemma_sorted_strings, sort_strings, sorted_strings, strings_view, trim_quotes, unquoted,
};
use vstd::multiset::Multiset;
use vstd::prelude::*;
use vstd::seq_lib::{to_multiset_build, to_multiset_contains, to_multiset_len, to_multiset_remove};

verus! {

// Known fields to extract or use
pub const ANNOTATIONS: &'static str = "annotations";

pub const CLASSIFICATION_ID: &'static str = "classification_id";

pub const EXPERT: &'static str = "expert";

pub const FINISHED_AT: &'static str = "finished_at";

pub const GOLD_STD: &'static str = "gold_standard";

pub const METADATA: &'static str = "metadata";

pub const STARTED_AT: &'static str = "started_at";

pub const SUBJECT_DATA: &'static str = "subject_data";

pub const SUBJECT_ID: &'static str = "subject_id";

pub const SUBJECT_IDS: &'static str = "subject_ids";

pub const USER_NAME: &'static str = "user_name";

pub const WORKFLOW_VER: &'static str = "workflow_version";

/// A column key with the value found for it.
pub type Pair = (Seq<char>, FieldView);

/// Why an annotation node could not be flattened.
#[derive(Clone, Copy, Debug, PartialEq, Eq, Structural)]
pub enum Fault {
    /// The node is no object, or an object of none of the known shapes.
    UnknownShape,
    /// The node has the marks of a shape but lacks one of its fields, or holds
    /// one of the wrong kind or out of range.
    Malformed,
}

/// An annotation node that could not be flattened: why, and the task id in
/// force at that node.
#[derive(Clone, Debug, PartialEq, Eq)]
pub struct NodeError {
    pub fault: Fault,
    pub task_id: String,
}

/// The shape that a node is taken for.
pub enum NodeShape {
    List,
    Container,
    Select,
    Text,
    Box_,
    Length,
    Point,
    Unknown,
}

/// The task id in force at a node: its own `task`, unquoted, or else the one
/// that it inherits.
pub open spec fn task_id_of(node: Json, inherited: Seq<char>) -> Seq<char> {
    if node.has("task"@) {
        unquoted(node.at("task"@).text@)
    } else {
        inherited
    }
}

/// The key of a column: the task id, a colon and a space, and the label.
pub open spec fn column_key(task_id: Seq<char>, label: Seq<char>) -> Seq<char> {
    task_id + seq![':', ' '] + label
}

/// The string under `key`, if the node has one.
pub open spec fn string_member(node: Json, key: Seq<char>) -> Option<Seq<char>> {
    if node.has(key) && node.at(key).kind is Str {
        Some(node.at(key).kind->Str_0@)
    } else {
        None
    }
}

/// The items of the array under `value`, if the node has one.
pub open spec fn value_items(node: Json) -> Option<Vec<Json>> {
    if node.has("value"@) && node.at("value"@).kind is Array {
        Some(node.at("value"@).kind->Array_0)
    } else {
        None
    }
}

/// Whether the items under `value` make a list of answers: the first of them
/// is a string, or there is none and the node carries a task label.
pub open spec fn is_answer_list(node: Json, items: Seq<Json>) -> bool {
    if items.len() > 0 {
        items[0].kind is Str
    } else {
        string_member(node, "task_label"@) is Some
    }
}

/// The shape of a node, by the first of the tests that it meets.
pub open spec fn node_shape(node: Json) -> NodeShape {
    if !(node.kind is Object) {
        NodeShape::Unknown
    } else if value_items(node) is Some {
        if is_answer_list(node, value_items(node).unwrap()@) {
            NodeShape::List
        } else {
            NodeShape::Container
        }
    } else if node.has("select_label"@) {
        NodeShape::Select
    } else if node.has("task_label"@) {
        NodeShape::Text
    } else if node.has("tool_label"@) && node.has("width"@) {
        NodeShape::Box_
    } else if node.has("tool_label"@) && node.has("x1"@) {
        NodeShape::Length
    } else if node.has("tool_label"@) && node.has("x"@) {
        NodeShape::Point
    } else {
        NodeShape::Unknown
    }
}

/// The number under `key` in millionths, if the node has one within range.
pub open spec fn coordinate(node: Json, key: Seq<char>) -> Option<int> {
    if node.has(key) && node.at(key).kind is Number {
        bounded_micro(node.at(key).text@)
    } else {
        None
    }
}

/// The text of the number under `key`, if the node has a number there.
pub open spec fn number_text(node: Json, key: Seq<char>) -> Option<Seq<char>> {
    if node.has(key) && node.at(key).kind is Number {
        Some(node.at(key).text@)
    } else {
        None
    }
}

/// The sum of the numbers under two keys, added as they are written and
/// then rounded to a whole pixel, if the node has both numbers and the sum
/// fits the pixel type.
pub open spec fn pixel_sum(node: Json, key: Seq<char>, other: Seq<char>) -> Option<int> {
    match (number_text(node, key), number_text(node, other)) {
        (Some(a), Some(b)) => match rounded_sum(a, b) {
            Some(sum) => if i32::MIN <= sum <= i32::MAX {
                Some(sum)
            } else {
                None
            },
            None => None,
        },
        _ => None,
    }
}

/// A number of millionths as a whole pixel, if that fits the pixel type.
pub open spec fn pixel(micro: int) -> Option<int> {
    if i32::MIN <= rounded(micro) <= i32::MAX {
        Some(rounded(micro))
    } else {
        None
    }
}

/// The answer of a select or text node: the string under `value`, the empty
/// string where there is none or it is null, nothing for any other value.
pub open spec fn answer(node: Json) -> Option<Seq<char>> {
    if !node.has("value"@) || node.at("value"@).kind is Null {
        Some(Seq::empty())
    } else {
        string_member(node, "value"@)
    }
}

/// The strings that the items hold, if all of them are strings.
pub open spec fn item_strings(items: Seq<Json>) -> Option<Seq<Seq<char>>> {
    if forall|i: int| 0 <= i < items.len() ==> (#[trigger] items[i]).kind is Str {
        Some(Seq::new(items.len(), |i: int| items[i].kind->Str_0@))
    } else {
        None
    }
}

/// The list field of the given answers: sorted, and joined by comma and space.
pub open spec fn list_of(answers: Seq<Seq<char>>) -> FieldView {
    FieldView::List {
        values: sorted_strings(answers),
        value: joined(sorted_strings(answers), seq![',', ' ']),
    }
}

/// The list field does not depend on the order of the answers: answers that
/// are the same but for their order give the same list. Its values are the
/// answers in ascending order, and a list made of them again is the same
/// list.
pub proof fn lemma_list_sorted(a: Seq<Seq<char>>, b: Seq<Seq<char>>)
    requires
        a.to_multiset() == b.to_multiset(),
    ensures
        list_of(a) == list_of(b),
        crate::text::ascending(list_of(a)->List_values),
        list_of(a)->List_values.to_multiset() == a.to_multiset(),
        list_of(list_of(a)->List_values) == list_of(a),
{
    lemma_sort_order_free(a, b);
    lemma_sorted_strings(a);
    lemma_sort_idempotent(a);
}

/// The label and the value of a node that holds one field, or `None` where a
/// part of the field is missing, of the wrong kind or out of range.
pub open spec fn leaf_field(node: Json, shape: NodeShape) -> Option<Pair> {
    match shape {
        NodeShape::List => {
            let label = string_member(node, "task_label"@);
            let answers = item_strings(value_items(node).unwrap()@);
            if label is Some && answers is Some {
                Some((label.unwrap(), list_of(answers.unwrap())))
            } else {
                None
            }
        },
        NodeShape::Select => {
            let label = string_member(node, "select_label"@);
            if label is Some && answer(node) is Some {
                Some((label.unwrap(), FieldView::Select { value: answer(node).unwrap() }))
            } else {
                None
            }
        },
        NodeShape::Text => {
            let label = string_member(node, "task_label"@);
            if label is Some && answer(node) is Some {
                Some((label.unwrap(), FieldView::Text { value: answer(node).unwrap() }))
            } else {
                None
            }
        },
        NodeShape::Box_ => {
            let label = string_member(node, "tool_label"@);
            let x = coordinate(node, "x"@);
            let y = coordinate(node, "y"@);
            let right = pixel_sum(node, "x"@, "width"@);
            let bottom = pixel_sum(node, "y"@, "height"@);
            if label is Some && x is Some && y is Some && pixel(x.unwrap()) is Some && pixel(
                y.unwrap(),
            ) is Some && right is Some && bottom is Some {
                Some(
                    (
                        label.unwrap(),
                        FieldView::Box_ {
                            left: rounded(x.unwrap()),
                            top: rounded(y.unwrap()),
                            right: right.unwrap(),
                            bottom: bottom.unwrap(),
                        },
                    ),
                )
            } else {
                None
            }
        },
        NodeShape::Length => {
            let label = string_member(node, "tool_label"@);
            let x1 = coordinate(node, "x1"@);
            let y1 = coordinate(node, "y1"@);
            let x2 = coordinate(node, "x2"@);
            let y2 = coordinate(node, "y2"@);
            if label is Some && x1 is Some && y1 is Some && x2 is Some && y2 is Some && pixel(
                x1.unwrap(),
            ) is Some && pixel(y1.unwrap()) is Some && pixel(x2.unwrap()) is Some && pixel(
                y2.unwrap(),
            ) is Some {
                Some(
                    (
                        label.unwrap(),
                        FieldView::Length {
                            x1: rounded(x1.unwrap()),
                            y1: rounded(y1.unwrap()),
                            x2: rounded(x2.unwrap()),
                            y2: rounded(y2.unwrap()),
                        },
                    ),
                )
            } else {
                None
            }
        },
        NodeShape::Point => {
            let label = string_member(node, "tool_label"@);
            let x = coordinate(node, "x"@);
            let y = coordinate(node, "y"@);
            if label is Some && x is Some && y is Some && pixel(x.unwrap()) is Some && pixel(
                y.unwrap(),
            ) is Some {
                Some(
                    (
                        label.unwrap(),
                        FieldView::Point { x: rounded(x.unwrap()), y: rounded(y.unwrap()) },
                    ),
                )
            } else {
                None
            }
        },
        _ => None,
    }
}

/// What flattening a node gives: the pairs of its fields in the order of the
/// tree, or the fault of the first node that has one, with the task id in
/// force there. A container hands its own task id down to each child.
pub open spec fn flattened(node: Json, inherited: Seq<char>) -> Result<Seq<Pair>, (Fault, Seq<char>)>
    decreases node, 0nat,
{
    let task_id = task_id_of(node, inherited);
    match node_shape(node) {
        NodeShape::Unknown => Err((Fault::UnknownShape, task_id)),
        NodeShape::Container => {
            let items = value_items(node).unwrap();
            flattened_first(items, items.len() as nat, task_id)
        },
        shape => match leaf_field(node, shape) {
            Some((label, field)) => Ok(seq![(column_key(task_id, label), field)]),
            None => Err((Fault::Malformed, task_id)),
        },
    }
}

/// What flattening the first `count` of the items gives, each under the task
/// id `task_id`.
pub open spec fn flattened_first(items: Vec<Json>, count: nat, task_id: Seq<char>) -> Result<
    Seq<Pair>,
    (Fault, Seq<char>),
>
    decreases items, count,
{
    if count == 0 || count > items.len() {
        Ok(Seq::empty())
    } else {
        match flattened_first(items, (count - 1) as nat, task_id) {
            Err(e) => Err(e),
            Ok(head) => match flattened(items[count - 1], task_id) {
                Err(e) => Err(e),
                Ok(tail) => Ok(head + tail),
            },
        }
    }
}

/// The pairs of a vector of key and field, as the contracts see them.
pub open spec fn pairs_view(v: Seq<(String, FlatField)>) -> Seq<Pair> {
    Seq::new(v.len(), |i: int| (v[i].0@, v[i].1@))
}

/// The task id in force at a node: its own `task`, unquoted, or else
/// `task_id`.
pub fn get_task_id(task: &Json, task_id: &str) -> (r: String)
    ensures
        r@ == task_id_of(*task, task_id@),
{
    match task.get("task") {
        Some(own) => trim_quotes(own.text.as_str()),
        None => String::from_str(task_id),
    }
}

/// The key of the column for `label` at a node: the task id in force there, a
/// colon and a space, and the label.
pub fn get_key(label: &str, task: &Json, task_id: &str) -> (r: String)
    ensures
        r@ == column_key(task_id_of(*task, task_id@), label@),
{
    let mut key = get_task_id(task, task_id);
    proof {
        reveal_strlit(": ");
        assert(": "@ =~= seq![':', ' ']);
    }
    key.append(": ");
    key.append(label);
    key
}

/// The string under `key`, if the node has one.
fn member_string(node: &Json, key: &str) -> (r: Option<String>)
    ensures
        match r {
            Some(s) => string_member(*node, key@) == Some(s@),
            None => string_member(*node, key@) is None,
        },
{
    match node.get(key) {
        Some(value) => match &value.kind {
            JsonKind::Str(s) => Some(s.clone()),
            _ => None,
        },
        None => None,
    }
}

/// The number under `key` in millionths, if the node has one within range.
fn member_coordinate(node: &Json, key: &str) -> (r: Option<i64>)
    ensures
        match r {
            Some(x) => coordinate(*node, key@) == Some(x as int),
            None => coordinate(*node, key@) is None,
        },
{
    match node.get(key) {
        Some(value) => match &value.kind {
            JsonKind::Number => read_micro(value.text.as_str()),
            _ => None,
        },
        None => None,
    }
}

/// A number of millionths as a whole pixel, if that fits the pixel type.
fn to_pixel(micro: i64) -> (r: Option<i32>)
    requires
        -2 * crate::number::MICRO_LIMIT <= micro <= 2 * crate::number::MICRO_LIMIT,
    ensures
        match r {
            Some(p) => pixel(micro as int) == Some(p as int),
            None => pixel(micro as int) is None,
        },
{
    let whole = round_micro(micro);
    if whole < -2_147_483_648 || whole > 2_147_483_647 {
        None
    } else {
        Some(whole as i32)
    }
}

/// The answer of a select or text node.
fn read_answer(node: &Json) -> (r: Option<String>)
    ensures
        match r {
            Some(s) => answer(*node) == Some(s@),
            None => answer(*node) is None,
        },
{
    match node.get("value") {
        None => Some(String::new()),
        Some(value) => match &value.kind {
            JsonKind::Null => Some(String::new()),
            JsonKind::Str(s) => Some(s.clone()),
            _ => None,
        },
    }
}

/// The strings that the items hold, if all of them are strings.
fn read_strings(items: &Vec<Json>) -> (r: Option<Vec<String>>)
    ensures
        match r {
            Some(v) => item_strings(items@) == Some(strings_view(v@)),
            None => item_strings(items@) is None,
        },
{
    let mut out: Vec<String> = Vec::new();
    let mut i: usize = 0;
    while i < items.len()
        invariant
            i <= items.len(),
            out.len() == i,
            forall|k: int| 0 <= k < i ==> (#[trigger] items@[k]).kind is Str,
            forall|k: int| 0 <= k < i ==> out@[k]@ == items@[k].kind->Str_0@,
        decreases items.len() - i,
    {
        match &items[i].kind {
            JsonKind::Str(s) => {
                out.push(s.clone());
            },
            _ => {
                assert(!(items@[i as int].kind is Str));
                return None;
            },
        }
        i += 1;
    }
    assert(strings_view(out@) =~= item_strings(items@).unwrap());
    Some(out)
}

/// The list field of a node with the answers `items` under `value`.
fn read_list(node: &Json, items: &Vec<Json>) -> (r: Option<(String, FlatField)>)
    requires
        value_items(*node) == Some(*items),
    ensures
        match r {
            Some((label, field)) => leaf_field(*node, NodeShape::List) == Some((label@, field@)),
            None => leaf_field(*node, NodeShape::List) is None,
        },
{
    let label = match member_string(node, "task_label") {
        Some(label) => label,
        None => {
            return None;
        },
    };
    let answers = match read_strings(items) {
        Some(answers) => answers,
        None => {
            return None;
        },
    };
    let values = sort_strings(&answers);
    proof {
        // the sorted answers are the only ascending arrangement of the answers
        lemma_sorted_strings(strings_view(answers@));
        lemma_ascending_unique(strings_view(values@), sorted_strings(strings_view(answers@)));
        reveal_strlit(", ");
        assert(", "@ =~= seq![',', ' ']);
    }
    let value = join(&values, ", ");
    Some((label, FlatField::List { values, value }))
}

/// The select field of a node.
fn read_select(node: &Json) -> (r: Option<(String, FlatField)>)
    ensures
        match r {
            Some((label, field)) => leaf_field(*node, NodeShape::Select) == Some(
                (label@, field@),
            ),
            None => leaf_field(*node, NodeShape::Select) is None,
        },
{
    match member_string(node, "select_label") {
        Some(label) => match read_answer(node) {
            Some(value) => Some((label, FlatField::Select { value })),
            None => None,
        },
        None => None,
    }
}

/// The text field of a node.
fn read_text(node: &Json) -> (r: Option<(String, FlatField)>)
    ensures
        match r {
            Some((label, field)) => leaf_field(*node, NodeShape::Text) == Some((label@, field@)),
            None => leaf_field(*node, NodeShape::Text) is None,
        },
{
    match member_string(node, "task_label") {
        Some(label) => match read_answer(node) {
            Some(value) => Some((label, FlatField::Text { value })),
            None => None,
        },
        None => None,
    }
}

/// The text of the number under `key`, if the node has a number there.
fn member_number<'a>(node: &'a Json, key: &str) -> (r: Option<&'a String>)
    ensures
        match r {
            Some(text) => number_text(*node, key@) == Some(text@),
            None => number_text(*node, key@) is None,
        },
{
    match node.get(key) {
        Some(value) => match &value.kind {
            JsonKind::Number => Some(&value.text),
            _ => None,
        },
        None => None,
    }
}

/// The sum of the numbers under two keys as a whole pixel.
fn member_sum(node: &Json, key: &str, other: &str) -> (r: Option<i32>)
    ensures
        match r {
            Some(sum) => pixel_sum(*node, key@, other@) == Some(sum as int),
            None => pixel_sum(*node, key@, other@) is None,
        },
{
    match (member_number(node, key), member_number(node, other)) {
        (Some(a), Some(b)) => match round_sum(a.as_str(), b.as_str()) {
            Some(sum) => if sum < -2_147_483_648 || sum > 2_147_483_647 {
                None
            } else {
                Some(sum as i32)
            },
            None => None,
        },
        _ => None,
    }
}

/// The box field of a node: its corner rounded to whole pixels, and the
/// corner plus width and height, each sum rounded once.
fn read_box(node: &Json) -> (r: Option<(String, FlatField)>)
    ensures
        match r {
            Some((label, field)) => leaf_field(*node, NodeShape::Box_) == Some((label@, field@)),
            None => leaf_field(*node, NodeShape::Box_) is None,
        },
{
    let label = member_string(node, "tool_label");
    let x = member_coordinate(node, "x");
    let y = member_coordinate(node, "y");
    let right = member_sum(node, "x", "width");
    let bottom = member_sum(node, "y", "height");
    match (label, x, y, right, bottom) {
        (Some(label), Some(x), Some(y), Some(right), Some(bottom)) => {
            match (to_pixel(x), to_pixel(y)) {
                (Some(left), Some(top)) => Some(
                    (label, FlatField::Box_ { left, top, right, bottom }),
                ),
                _ => None,
            }
        },
        _ => None,
    }
}

/// The length field of a node: its two end points, rounded to whole pixels.
fn read_length(node: &Json) -> (r: Option<(String, FlatField)>)
    ensures
        match r {
            Some((label, field)) => leaf_field(*node, NodeShape::Length) == Some(
                (label@, field@),
            ),
            None => leaf_field(*node, NodeShape::Length) is None,
        },
{
    let label = member_string(node, "tool_label");
    let x1 = member_coordinate(node, "x1");
    let y1 = member_coordinate(node, "y1");
    let x2 = member_coordinate(node, "x2");
    let y2 = member_coordinate(node, "y2");
    match (label, x1, y1, x2, y2) {
        (Some(label), Some(x1), Some(y1), Some(x2), Some(y2)) => {
            match (to_pixel(x1), to_pixel(y1), to_pixel(x2), to_pixel(y2)) {
                (Some(x1), Some(y1), Some(x2), Some(y2)) => Some(
                    (label, FlatField::Length { x1, y1, x2, y2 }),
                ),
                _ => None,
            }
        },
        _ => None,
    }
}

/// The point field of a node, rounded to whole pixels.
fn read_point(node: &Json) -> (r: Option<(String, FlatField)>)
    ensures
        match r {
            Some((label, field)) => leaf_field(*node, NodeShape::Point) == Some((label@, field@)),
            None => leaf_field(*node, NodeShape::Point) is None,
        },
{
    let label = member_string(node, "tool_label");
    let x = member_coordinate(node, "x");
    let y = member_coordinate(node, "y");
    match (label, x, y) {
        (Some(label), Some(x), Some(y)) => match (to_pixel(x), to_pixel(y)) {
            (Some(x), Some(y)) => Some((label, FlatField::Point { x, y })),
            _ => None,
        },
        _ => None,
    }
}

/// A fault among the first items is the fault of them all.
pub proof fn lemma_fault_stays(items: Vec<Json>, count: nat, all: nat, task_id: Seq<char>)
    requires
        1 <= count <= all <= items.len(),
        flattened_first(items, count, task_id) is Err,
    ensures
        flattened_first(items, all, task_id) == flattened_first(items, count, task_id),
    decreases all - count,
{
    if count < all {
        lemma_fault_stays(items, count, (all - 1) as nat, task_id);
    }
}

/// Whether each of the nodes can be flattened under the task id.
pub open spec fn all_flatten(items: Seq<Json>, task_id: Seq<char>) -> bool {
    forall|i: int| 0 <= i < items.len() ==> flattened(#[trigger] items[i], task_id) is Ok
}

/// The pairs of a node as a bag: each pair as often as the node gives it,
/// in no order; none for a node that cannot be flattened.
pub open spec fn node_bag(node: Json, task_id: Seq<char>) -> Multiset<Pair> {
    match flattened(node, task_id) {
        Ok(pairs) => pairs.to_multiset(),
        Err(_) => Multiset::empty(),
    }
}

/// The pairs of the nodes as a bag.
pub open spec fn pair_bag(items: Seq<Json>, task_id: Seq<char>) -> Multiset<Pair>
    decreases items.len(),
{
    if items.len() == 0 {
        Multiset::empty()
    } else {
        pair_bag(items.drop_last(), task_id).add(node_bag(items.last(), task_id))
    }
}

/// The pairs of a sequence of pairs followed by another, as a bag.
proof fn lemma_bag_of_concat(a: Seq<Pair>, b: Seq<Pair>)
    ensures
        (a + b).to_multiset() == a.to_multiset().add(b.to_multiset()),
    decreases b.len(),
{
    if b.len() == 0 {
        assert(a + b =~= a);
        assert(b.to_multiset() =~= Multiset::<Pair>::empty()) by {
            b.to_multiset_ensures();
        }
        assert(a.to_multiset().add(Multiset::<Pair>::empty()) =~= a.to_multiset());
    } else {
        lemma_bag_of_concat(a, b.drop_last());
        assert((a + b.drop_last()).push(b.last()) =~= a + b);
        assert(b.drop_last().push(b.last()) =~= b);
        to_multiset_build(a + b.drop_last(), b.last());
        to_multiset_build(b.drop_last(), b.last());
        assert((a + b).to_multiset() =~= a.to_multiset().add(b.to_multiset()));
    }
}

/// Flattening the children of a container succeeds where each child can be
/// flattened, and then gives the pairs of them all.
pub proof fn lemma_children_bag(items: Vec<Json>, count: nat, task_id: Seq<char>)
    requires
        count <= items.len(),
    ensures
        flattened_first(items, count, task_id) is Ok <==> all_flatten(
            items@.take(count as int),
            task_id,
        ),
        flattened_first(items, count, task_id) is Ok ==> flattened_first(
            items,
            count,
            task_id,
        )->Ok_0.to_multiset() == pair_bag(items@.take(count as int), task_id),
    decreases count,
{
    let now = items@.take(count as int);
    if count == 0 {
        assert(Seq::<Pair>::empty().to_multiset() =~= Multiset::<Pair>::empty()) by {
            Seq::<Pair>::empty().to_multiset_ensures();
        }
    } else {
        let before = items@.take(count - 1);
        lemma_children_bag(items, (count - 1) as nat, task_id);
        assert(now.drop_last() =~= before);
        assert(now.last() == items@[count - 1]);
        if all_flatten(now, task_id) {
            assert forall|i: int| 0 <= i < before.len() implies flattened(
                #[trigger] before[i],
                task_id,
            ) is Ok by {
                assert(before[i] == now[i]);
            }
            assert(flattened(now[count - 1], task_id) is Ok);
        }
        if flattened_first(items, count, task_id) is Ok {
            assert forall|i: int| 0 <= i < now.len() implies flattened(
                #[trigger] now[i],
                task_id,
            ) is Ok by {
                if i < count - 1 {
                    assert(now[i] == before[i]);
                }
            }
            let head = flattened_first(items, (count - 1) as nat, task_id)->Ok_0;
            let tail = flattened(items@[count - 1], task_id)->Ok_0;
            lemma_bag_of_concat(head, tail);
        }
    }
}

/// The pairs of the nodes are those of the nodes without one of them, and
/// those of that one.
proof fn lemma_bag_without(items: Seq<Json>, k: int, task_id: Seq<char>)
    requires
        0 <= k < items.len(),
    ensures
        pair_bag(items, task_id) == pair_bag(items.remove(k), task_id).add(
            node_bag(items[k], task_id),
        ),
    decreases items.len(),
{
    if k == items.len() - 1 {
        assert(items.remove(k) =~= items.drop_last());
    } else {
        lemma_bag_without(items.drop_last(), k, task_id);
        assert(items.remove(k).drop_last() =~= items.drop_last().remove(k));
        assert(items.remove(k).last() == items.last());
        assert(pair_bag(items, task_id) =~= pair_bag(items.remove(k), task_id).add(
            node_bag(items[k], task_id),
        ));
    }
}

/// Nodes that can all be flattened can be so in any order.
proof fn lemma_all_flatten_order_free(a: Seq<Json>, b: Seq<Json>, task_id: Seq<char>)
    requires
        a.to_multiset() == b.to_multiset(),
        all_flatten(a, task_id),
    ensures
        all_flatten(b, task_id),
{
    assert forall|i: int| 0 <= i < b.len() implies flattened(#[trigger] b[i], task_id) is Ok by {
        to_multiset_contains(b, b[i]);
        to_multiset_contains(a, b[i]);
        assert(b.contains(b[i]));
        let j = choose|j: int| 0 <= j < a.len() && a[j] == b[i];
        assert(flattened(a[j], task_id) is Ok);
    }
}

/// Nodes that are the same but for their order give the same pairs.
proof fn lemma_bag_order_free(a: Seq<Json>, b: Seq<Json>, task_id: Seq<char>)
    requires
        a.to_multiset() == b.to_multiset(),
    ensures
        pair_bag(a, task_id) == pair_bag(b, task_id),
    decreases a.len(),
{
    to_multiset_len(a);
    to_multiset_len(b);
    if a.len() > 0 {
        let last = a.last();
        to_multiset_contains(a, last);
        to_multiset_contains(b, last);
        assert(a.contains(last));
        let k = choose|k: int| 0 <= k < b.len() && b[k] == last;
        to_multiset_remove(b, k);
        to_multiset_remove(a, a.len() - 1);
        assert(a.remove(a.len() - 1) =~= a.drop_last());
        lemma_bag_order_free(a.drop_last(), b.remove(k), task_id);
        lemma_bag_without(b, k, task_id);
    }
}

/// The order of the children of a container does not matter to the keys and
/// values found: two lists of children that hold the same nodes in another
/// order can be flattened or not alike, and where they can, they give the
/// same pairs of column key and value, each as often, in another order.
pub proof fn lemma_sibling_order(a: Vec<Json>, b: Vec<Json>, task_id: Seq<char>)
    requires
        a@.to_multiset() == b@.to_multiset(),
    ensures
        flattened_first(a, a@.len(), task_id) is Ok <==> flattened_first(b, b@.len(), task_id)
            is Ok,
        flattened_first(a, a@.len(), task_id) is Ok ==> flattened_first(
            a,
            a@.len(),
            task_id,
        )->Ok_0.to_multiset() == flattened_first(b, b@.len(), task_id)->Ok_0.to_multiset(),
{
    lemma_children_bag(a, a@.len(), task_id);
    lemma_children_bag(b, b@.len(), task_id);
    assert(a@.take(a@.len() as int) =~= a@);
    assert(b@.take(b@.len() as int) =~= b@);
    lemma_bag_order_free(a@, b@, task_id);
    if all_flatten(a@, task_id) {
        lemma_all_flatten_order_free(a@, b@, task_id);
    }
    if all_flatten(b@, task_id) {
        lemma_all_flatten_order_free(b@, a@, task_id);
    }
}

/// The task id that a node names itself, if it names one.
pub open spec fn own_task(node: Json) -> Option<Seq<char>> {
    if node.has("task"@) {
        Some(unquoted(node.at("task"@).text@))
    } else {
        None
    }
}

/// Whether two nodes are the same but for the order of the children of
/// containers, at every depth: two containers that name the same task, with
/// children that can be matched one to one, each with one that is the same
/// but for such order again; or else one and the same node.
pub open spec fn reordered(a: Json, b: Json) -> bool
    decreases a,
{
    if node_shape(a) is Container {
        &&& node_shape(b) is Container
        &&& own_task(a) == own_task(b)
        &&& exists|matched: Seq<Json>|
            {
                &&& #[trigger] matched.to_multiset() == value_items(b).unwrap()@.to_multiset()
                &&& matched.len() == value_items(a).unwrap()@.len()
                &&& forall|i: int|
                    0 <= i < matched.len() ==> reordered(
                        value_items(a).unwrap()@[i],
                        #[trigger] matched[i],
                    )
            }
    } else {
        a == b
    }
}

/// Every node is the same as itself but for the order of siblings.
pub proof fn lemma_reordered_same(a: Json)
    ensures
        reordered(a, a),
    decreases a,
{
    if node_shape(a) is Container {
        let items = value_items(a).unwrap()@;
        assert forall|i: int| 0 <= i < items.len() implies reordered(items[i], #[trigger] items[i]) by {
            lemma_reordered_same(items[i]);
        }
        assert(items.to_multiset() == value_items(a).unwrap()@.to_multiset());
    }
}

/// Two containers that name the same task and hold the same children, in
/// whatever order, are the same but for the order of siblings.
pub proof fn lemma_reordered_children(a: Json, b: Json)
    requires
        node_shape(a) is Container,
        node_shape(b) is Container,
        own_task(a) == own_task(b),
        value_items(a).unwrap()@.to_multiset() == value_items(b).unwrap()@.to_multiset(),
    ensures
        reordered(a, b),
{
    let items = value_items(a).unwrap()@;
    assert forall|i: int| 0 <= i < items.len() implies reordered(items[i], #[trigger] items[i]) by {
        lemma_reordered_same(items[i]);
    }
    assert(items.to_multiset() == value_items(b).unwrap()@.to_multiset());
}

/// Nodes that give the same pairs one by one give the same pairs together.
proof fn lemma_bag_pointwise(a: Seq<Json>, b: Seq<Json>, task_id: Seq<char>)
    requires
        a.len() == b.len(),
        forall|i: int| 0 <= i < a.len() ==> node_bag(#[trigger] a[i], task_id) == node_bag(b[i], task_id),
    ensures
        pair_bag(a, task_id) == pair_bag(b, task_id),
    decreases a.len(),
{
    if a.len() > 0 {
        assert forall|i: int| 0 <= i < a.drop_last().len() implies node_bag(
            #[trigger] a.drop_last()[i],
            task_id,
        ) == node_bag(b.drop_last()[i], task_id) by {
            assert(a.drop_last()[i] == a[i]);
            assert(b.drop_last()[i] == b[i]);
        }
        lemma_bag_pointwise(a.drop_last(), b.drop_last(), task_id);
        assert(node_bag(a[a.len() - 1], task_id) == node_bag(b[a.len() - 1], task_id));
    }
}

/// The order of siblings does not matter to the keys and values found, at
/// whatever depth of the tree they stand: two nodes that are the same but
/// for the order of the children of containers can be flattened or not
/// alike, and where they can, they give the same pairs of column key and
/// value, each as often, in another order.
pub proof fn lemma_order_free(a: Json, b: Json, inherited: Seq<char>)
    requires
        reordered(a, b),
    ensures
        flattened(a, inherited) is Ok <==> flattened(b, inherited) is Ok,
        flattened(a, inherited) is Ok ==> flattened(a, inherited)->Ok_0.to_multiset()
            == flattened(b, inherited)->Ok_0.to_multiset(),
    decreases a,
{
    if node_shape(a) is Container {
        let task_id = task_id_of(a, inherited);
        assert(task_id == task_id_of(b, inherited));
        let first = value_items(a).unwrap();
        let second = value_items(b).unwrap();
        let matched = choose|matched: Seq<Json>|
            {
                &&& #[trigger] matched.to_multiset() == second@.to_multiset()
                &&& matched.len() == first@.len()
                &&& forall|i: int|
                    0 <= i < matched.len() ==> reordered(first@[i], #[trigger] matched[i])
            };
        assert forall|i: int| 0 <= i < first@.len() implies (flattened(
            #[trigger] first@[i],
            task_id,
        ) is Ok <==> flattened(matched[i], task_id) is Ok) && node_bag(first@[i], task_id)
            == node_bag(matched[i], task_id) by {
            assert(reordered(first@[i], matched[i]));
            lemma_order_free(first@[i], matched[i], task_id);
        }
        lemma_bag_pointwise(first@, matched, task_id);
        lemma_bag_order_free(matched, second@, task_id);
        if all_flatten(first@, task_id) {
            assert(all_flatten(matched, task_id)) by {
                assert forall|i: int| 0 <= i < matched.len() implies flattened(
                    #[trigger] matched[i],
                    task_id,
                ) is Ok by {
                    assert(flattened(first@[i], task_id) is Ok);
                }
            }
            lemma_all_flatten_order_free(matched, second@, task_id);
        }
        if all_flatten(second@, task_id) {
            lemma_all_flatten_order_free(second@, matched, task_id);
            assert(all_flatten(first@, task_id)) by {
                assert forall|i: int| 0 <= i < first@.len() implies flattened(
                    #[trigger] first@[i],
                    task_id,
                ) is Ok by {
                    assert(flattened(matched[i], task_id) is Ok);
                }
            }
        }
        lemma_children_bag(first, first@.len(), task_id);
        lemma_children_bag(second, second@.len(), task_id);
        assert(first@.take(first@.len() as int) =~= first@);
        assert(second@.take(second@.len() as int) =~= second@);
    }
}

/// The items of the array under `value`, if the node has one.
fn member_items(node: &Json) -> (r: Option<&Vec<Json>>)
    ensures
        match r {
            Some(items) => value_items(*node) == Some(*items),
            None => value_items(*node) is None,
        },
{
    match node.get("value") {
        Some(value) => match &value.kind {
            JsonKind::Array(items) => Some(items),
            _ => None,
        },
        None => None,
    }
}

/// Whether the items under `value` make a list of answers.
fn check_answer_list(node: &Json, items: &Vec<Json>) -> (r: bool)
    ensures
        r == is_answer_list(*node, items@),
{
    if items.len() > 0 {
        match &items[0].kind {
            JsonKind::Str(_) => true,
            _ => false,
        }
    } else {
        member_string(node, "task_label").is_some()
    }
}

/// Flattens one node of an annotation tree: the pairs of column key and value
/// of the fields at and below it, in the order of the tree. A container hands
/// its task id down to its children and gives no pair of its own; any other
/// node gives one pair, under the key of its task id and its label. The first
/// node that fits no shape, or lacks a part of its shape, ends the work.
pub fn flatten_tasks(task: &Json, task_id: &str) -> (r: Result<Vec<(String, FlatField)>, NodeError>)
    ensures
        match r {
            Ok(pairs) => flattened(*task, task_id@) == Ok::<Seq<Pair>, (Fault, Seq<char>)>(
                pairs_view(pairs@),
            ),
            Err(e) => flattened(*task, task_id@) == Err::<Seq<Pair>, (Fault, Seq<char>)>(
                (e.fault, e.task_id@),
            ),
        },
    decreases *task,
{
    let own_id = get_task_id(task, task_id);
    match &task.kind {
        JsonKind::Object(_) => {},
        _ => {
            return Err(NodeError { fault: Fault::UnknownShape, task_id: own_id });
        },
    }
    let leaf = match member_items(task) {
        Some(items) => {
            if check_answer_list(task, items) {
                read_list(task, items)
            } else {
                let mut pairs: Vec<(String, FlatField)> = Vec::new();
                let mut i: usize = 0;
                assert(pairs_view(pairs@) =~= Seq::<Pair>::empty());
                while i < items.len()
                    invariant
                        i <= items.len(),
                        value_items(*task) == Some(*items),
                        node_shape(*task) is Container,
                        own_id@ == task_id_of(*task, task_id@),
                        flattened_first(*items, i as nat, own_id@) == Ok::<
                            Seq<Pair>,
                            (Fault, Seq<char>),
                        >(pairs_view(pairs@)),
                    decreases items.len() - i,
                {
                    match flatten_tasks(&items[i], own_id.as_str()) {
                        Ok(mut below) => {
                            let ghost head = pairs_view(pairs@);
                            let ghost tail = pairs_view(below@);
                            pairs.append(&mut below);
                            assert(pairs_view(pairs@) =~= head + tail);
                        },
                        Err(e) => {
                            proof {
                                lemma_fault_stays(
                                    *items,
                                    (i + 1) as nat,
                                    items.len() as nat,
                                    own_id@,
                                );
                            }
                            return Err(e);
                        },
                    }
                    i += 1;
                }
                return Ok(pairs);
            }
        },
        None => {
            if task.get("select_label").is_some() {
                read_select(task)
            } else if task.get("task_label").is_some() {
                read_text(task)
            } else if task.get("tool_label").is_some() && task.get("width").is_some() {
                read_box(task)
            } else if task.get("tool_label").is_some() && task.get("x1").is_some() {
                read_length(task)
            } else if task.get("tool_label").is_some() && task.get("x").is_some() {
                read_point(task)
            } else {
                return Err(NodeError { fault: Fault::UnknownShape, task_id: own_id });
            }
        },
    };
    match leaf {
        Some((label, field)) => {
            let key = get_key(label.as_str(), task, own_id.as_str());
            let mut pairs: Vec<(String, FlatField)> = Vec::new();
            pairs.push((key, field));
            assert(pairs_view(pairs@) =~= seq![(key@, field@)]);
            Ok(pairs)
        },
        None => Err(NodeError { fault: Fault::Malformed, task_id: own_id }),
    }
}

/// One classification as it is exported: the id of its subject, its three
/// JSON texts, and the administrative fields that the export may carry.
#[derive(Clone, Debug, PartialEq, Eq)]
pub struct RawRecord {
    pub subject_ids: String,
    pub annotations: String,
    pub metadata: String,
    pub subject_data: String,
    pub classification_id: Option<String>,
    pub user_name: Option<String>,
    pub gold_standard: Option<String>,
    pub expert: Option<String>,
    pub workflow_version: Option<String>,
}

/// Why a record could not be flattened.
#[derive(Clone, Debug, PartialEq, Eq)]
pub enum RecordError {
    /// `annotations` is no JSON text, or no array.
    Annotations,
    /// `metadata` is no JSON text, or no object.
    Metadata,
    /// `subject_data` is no JSON text, or no object.
    SubjectData,
    /// A node of the annotation tree could not be flattened.
    Node(NodeError),
}

/// A `RecordError` as the contracts see it.
pub enum RecordFault {
    Annotations,
    Metadata,
    SubjectData,
    Node(Fault, Seq<char>),
}

impl View for RecordError {
    type V = RecordFault;

    open spec fn view(&self) -> RecordFault {
        match *self {
            RecordError::Annotations => RecordFault::Annotations,
            RecordError::Metadata => RecordFault::Metadata,
            RecordError::SubjectData => RecordFault::SubjectData,
            RecordError::Node(e) => RecordFault::Node(e.fault, e.task_id@),
        }
    }
}

/// The pair of an administrative field, if the record carries it.
pub open spec fn passthrough(key: Seq<char>, value: Option<String>) -> Seq<Pair> {
    match value {
        Some(text) => seq![(key, FieldView::NoOp { value: text@ })],
        None => Seq::empty(),
    }
}

/// The pairs of the administrative fields that a record carries.
pub open spec fn admin_pairs(record: RawRecord) -> Seq<Pair> {
    passthrough("classification_id"@, record.classification_id) + passthrough(
        "user_name"@,
        record.user_name,
    ) + passthrough("gold_standard"@, record.gold_standard) + passthrough(
        "expert"@,
        record.expert,
    ) + passthrough("workflow_version"@, record.workflow_version)
}

/// The pair of a time stamp of the metadata, if it is there: the value as
/// JSON text, unquoted.
pub open spec fn stamp(metadata: Json, key: Seq<char>) -> Seq<Pair> {
    if metadata.has(key) {
        seq![(key, FieldView::NoOp { value: unquoted(metadata.at(key).text@) })]
    } else {
        Seq::empty()
    }
}

/// The pairs of the metadata: when the classification was started and
/// finished.
pub open spec fn metadata_pairs(metadata: Json) -> Seq<Pair> {
    stamp(metadata, "started_at"@) + stamp(metadata, "finished_at"@)
}

/// The pairs of the first `count` fields of one subject: each but `retired`
/// under its own name, the value as JSON text, unquoted.
pub open spec fn subject_fields(fields: Seq<(String, Json)>, count: nat) -> Seq<Pair>
    decreases count,
{
    if count == 0 || count > fields.len() {
        Seq::empty()
    } else {
        let (name, value) = fields[count - 1];
        let before = subject_fields(fields, (count - 1) as nat);
        if name@ == "retired"@ {
            before
        } else {
            before.push((name@, FieldView::Same { value: unquoted(value.text@) }))
        }
    }
}

/// The pairs of the first `count` entries of the subject data: the fields of
/// each entry that is an object.
pub open spec fn subject_pairs(subjects: Seq<(String, Json)>, count: nat) -> Seq<Pair>
    decreases count,
{
    if count == 0 || count > subjects.len() {
        Seq::empty()
    } else {
        let entry = subjects[count - 1].1;
        let before = subject_pairs(subjects, (count - 1) as nat);
        if entry.kind is Object {
            before + subject_fields(entry.entries(), entry.entries().len())
        } else {
            before
        }
    }
}

/// The pairs of a record in the order in which they enter its row: the
/// subject id, the fields of the annotation tree, the administrative fields,
/// the time stamps, and the fields of the subject. The first part that cannot
/// be read gives the fault.
pub open spec fn record_pairs(record: RawRecord) -> Result<Seq<Pair>, RecordFault> {
    parts_pairs(
        record,
        parsed(record.annotations@),
        parsed(record.metadata@),
        parsed(record.subject_data@),
    )
}

/// The pairs of a record whose three JSON texts have been read into the
/// given trees, `None` for a text that is no JSON.
pub open spec fn parts_pairs(
    record: RawRecord,
    annotations: Option<Json>,
    metadata: Option<Json>,
    subject_data: Option<Json>,
) -> Result<Seq<Pair>, RecordFault> {
    if annotations is None || !(annotations.unwrap().kind is Array) {
        Err(RecordFault::Annotations)
    } else {
        let tasks = annotations.unwrap().kind->Array_0;
        match flattened_first(tasks, tasks.len() as nat, Seq::empty()) {
            Err((fault, task_id)) => Err(RecordFault::Node(fault, task_id)),
            Ok(fields) => {
                if metadata is None || !(metadata.unwrap().kind is Object) {
                    Err(RecordFault::Metadata)
                } else if subject_data is None || !(subject_data.unwrap().kind is Object) {
                    Err(RecordFault::SubjectData)
                } else {
                    Ok(
                        seq![("subject_id"@, FieldView::Same { value: record.subject_ids@ })]
                            + fields + admin_pairs(record) + metadata_pairs(metadata.unwrap())
                            + subject_pairs(
                            subject_data.unwrap().entries(),
                            subject_data.unwrap().entries().len(),
                        ),
                    )
                }
            },
        }
    }
}

/// The entries of a row after the pairs are set in it, one after the other.
pub open spec fn inserted_all(e: Entries, pairs: Seq<Pair>) -> Entries
    decreases pairs.len(),
{
    if pairs.len() == 0 {
        e
    } else {
        inserted(inserted_all(e, pairs.drop_last()), pairs.last().0, pairs.last().1)
    }
}

/// What the entries hold after a key is set: the pair that was set, and
/// what they held before under other keys.
pub proof fn lemma_inserted_holds(e: Entries, key: Seq<char>, value: FieldView, pair: Pair)
    requires
        distinct_keys(e),
    ensures
        inserted(e, key, value).contains(pair) <==> (pair == (key, value) || (e.contains(pair)
            && pair.0 != key)),
        distinct_keys(inserted(e, key, value)),
{
    let after = inserted(e, key, value);
    if has_key(e, key) {
        lemma_first_exists(e, key);
        let at = key_index(e, key);
        assert(after[at] == (key, value));
        if after.contains(pair) {
            let j = choose|j: int| 0 <= j < after.len() && after[j] == pair;
            if j != at {
                assert(e[j] == pair);
                assert(e[j].0 != e[at].0);
            }
        }
        if e.contains(pair) && pair.0 != key {
            let j = choose|j: int| 0 <= j < e.len() && e[j] == pair;
            assert(after[j] == pair);
        }
        assert forall|i: int, j: int| 0 <= i < j < after.len() implies (#[trigger] after[i]).0 != (
        #[trigger] after[j]).0 by {
            assert(after[i].0 == e[i].0 && after[j].0 == e[j].0);
        }
    } else {
        assert(after[e.len() as int] == (key, value));
        if after.contains(pair) {
            let j = choose|j: int| 0 <= j < after.len() && after[j] == pair;
            if j < e.len() {
                assert(e[j] == pair);
            }
        }
        if e.contains(pair) && pair.0 != key {
            let j = choose|j: int| 0 <= j < e.len() && e[j] == pair;
            assert(after[j] == pair);
        }
        assert forall|i: int, j: int| 0 <= i < j < after.len() implies (#[trigger] after[i]).0 != (
        #[trigger] after[j]).0 by {
            if j < e.len() {
                assert(after[i].0 == e[i].0 && after[j].0 == e[j].0);
            } else {
                assert(after[i] == e[i]);
            }
        }
    }
}

/// What a row holds after pairs with pairwise distinct keys are set in it:
/// the pairs, and what it held before under keys that none of them has.
pub proof fn lemma_inserted_all_holds(e: Entries, pairs: Seq<Pair>, pair: Pair)
    requires
        distinct_keys(e),
        distinct_keys(pairs),
    ensures
        inserted_all(e, pairs).contains(pair) <==> (pairs.contains(pair) || (e.contains(pair)
            && !has_key(pairs, pair.0))),
        distinct_keys(inserted_all(e, pairs)),
    decreases pairs.len(),
{
    if pairs.len() > 0 {
        let front = pairs.drop_last();
        let last = pairs.last();
        assert forall|i: int, j: int| 0 <= i < j < front.len() implies (#[trigger] front[i]).0 != (
        #[trigger] front[j]).0 by {
            assert(front[i] == pairs[i] && front[j] == pairs[j]);
        }
        lemma_inserted_all_holds(e, front, pair);
        lemma_inserted_holds(inserted_all(e, front), last.0, last.1, pair);
        assert(pairs[pairs.len() - 1] == last);
        if front.contains(pair) {
            let j = choose|j: int| 0 <= j < front.len() && front[j] == pair;
            assert(pairs[j] == pair);
            assert(pairs[j].0 != pairs[pairs.len() - 1].0);
        }
        if pairs.contains(pair) && pair != last {
            let j = choose|j: int| 0 <= j < pairs.len() && pairs[j] == pair;
            assert(front[j] == pair);
        }
        if has_key(front, pair.0) {
            let j = choose|j: int| 0 <= j < front.len() && (#[trigger] front[j]).0 == pair.0;
            assert(pairs[j].0 == pair.0);
        }
        if has_key(pairs, pair.0) && pair.0 != last.0 {
            let j = choose|j: int| 0 <= j < pairs.len() && (#[trigger] pairs[j]).0 == pair.0;
            assert(front[j].0 == pair.0);
        }
    }
}

/// Pairs with pairwise distinct keys keep them so in whatever order.
pub proof fn lemma_distinct_order_free(first: Seq<Pair>, second: Seq<Pair>)
    requires
        distinct_keys(first),
        first.to_multiset() == second.to_multiset(),
    ensures
        distinct_keys(second),
{
    assert(first.no_duplicates()) by {
        assert forall|i: int, j: int| 0 <= i < first.len() && 0 <= j < first.len() && i
            != j implies first[i] != first[j] by {
            if i < j {
                assert(first[i].0 != first[j].0);
            } else {
                assert(first[j].0 != first[i].0);
            }
        }
    }
    first.lemma_multiset_has_no_duplicates();
    second.lemma_multiset_has_no_duplicates_conv();
    assert forall|i: int, j: int| 0 <= i < j < second.len() implies (#[trigger] second[i]).0 != (
    #[trigger] second[j]).0 by {
        let x = second[i];
        let y = second[j];
        assert(x != y);
        assert(second.contains(x) && second.contains(y));
        to_multiset_contains(second, x);
        to_multiset_contains(second, y);
        to_multiset_contains(first, x);
        to_multiset_contains(first, y);
        let a = choose|a: int| 0 <= a < first.len() && first[a] == x;
        let b = choose|b: int| 0 <= b < first.len() && first[b] == y;
        if a < b {
            assert(first[a].0 != first[b].0);
        } else {
            assert(first[b].0 != first[a].0);
        }
    }
}

/// With pairwise distinct keys, what a row holds after the pairs are set in
/// it does not depend on their order, whatever the row held before.
pub proof fn lemma_row_order_free(row: Entries, first: Seq<Pair>, second: Seq<Pair>)
    requires
        distinct_keys(row),
        distinct_keys(first),
        first.to_multiset() == second.to_multiset(),
    ensures
        inserted_all(row, first).to_set() == inserted_all(row, second).to_set(),
{
    lemma_distinct_order_free(first, second);
    assert forall|pair: Pair|
        inserted_all(row, first).contains(pair) <==> inserted_all(row, second).contains(pair) by {
        lemma_inserted_all_holds(row, first, pair);
        lemma_inserted_all_holds(row, second, pair);
        to_multiset_contains(first, pair);
        to_multiset_contains(second, pair);
        if has_key(first, pair.0) {
            let j = choose|j: int| 0 <= j < first.len() && (#[trigger] first[j]).0 == pair.0;
            to_multiset_contains(first, first[j]);
            to_multiset_contains(second, first[j]);
            assert(first.contains(first[j]));
            let k = choose|k: int| 0 <= k < second.len() && second[k] == first[j];
            assert(second[k].0 == pair.0);
        }
        if has_key(second, pair.0) {
            let j = choose|j: int| 0 <= j < second.len() && (#[trigger] second[j]).0 == pair.0;
            to_multiset_contains(first, second[j]);
            to_multiset_contains(second, second[j]);
            assert(second.contains(second[j]));
            let k = choose|k: int| 0 <= k < first.len() && first[k] == second[j];
            assert(first[k].0 == pair.0);
        }
    }
    assert(inserted_all(row, first).to_set() =~= inserted_all(row, second).to_set());
}

/// No key of a row depends on the order of siblings: two trees that are the
/// same but for the order of the children of containers, at whatever depth,
/// whose fields have pairwise distinct column keys, leave a row that their
/// fields are set in with the same entries.
pub proof fn lemma_rows_order_free(a: Json, b: Json, inherited: Seq<char>, row: Entries)
    requires
        reordered(a, b),
        flattened(a, inherited) is Ok,
        distinct_keys(flattened(a, inherited)->Ok_0),
        distinct_keys(row),
    ensures
        flattened(b, inherited) is Ok,
        inserted_all(row, flattened(a, inherited)->Ok_0).to_set() == inserted_all(
            row,
            flattened(b, inherited)->Ok_0,
        ).to_set(),
{
    lemma_order_free(a, b, inherited);
    lemma_row_order_free(row, flattened(a, inherited)->Ok_0, flattened(b, inherited)->Ok_0);
}

/// Adds the pair of an administrative field, if the record carries it.
fn push_passthrough(pairs: &mut Vec<(String, FlatField)>, key: &str, value: &Option<String>)
    ensures
        pairs_view(final(pairs)@) == pairs_view(old(pairs)@) + passthrough(key@, *value),
{
    match value {
        Some(text) => {
            pairs.push((String::from_str(key), FlatField::NoOp { value: text.clone() }));
            assert(pairs_view(pairs@) =~= pairs_view(old(pairs)@) + passthrough(key@, *value));
        },
        None => {
            assert(pairs_view(pairs@) =~= pairs_view(old(pairs)@) + passthrough(key@, *value));
        },
    }
}

/// Adds the pair of a time stamp of the metadata, if it is there.
fn push_stamp(pairs: &mut Vec<(String, FlatField)>, metadata: &Json, key: &str)
    ensures
        pairs_view(final(pairs)@) == pairs_view(old(pairs)@) + stamp(*metadata, key@),
{
    match metadata.get(key) {
        Some(value) => {
            pairs.push(
                (String::from_str(key), FlatField::NoOp { value: trim_quotes(value.text.as_str()) }),
            );
            assert(pairs_view(pairs@) =~= pairs_view(old(pairs)@) + stamp(*metadata, key@));
        },
        None => {
            assert(pairs_view(pairs@) =~= pairs_view(old(pairs)@) + stamp(*metadata, key@));
        },
    }
}

/// Adds the pairs of the fields of one subject.
fn push_subject_fields(pairs: &mut Vec<(String, FlatField)>, fields: &Vec<(String, Json)>)
    ensures
        pairs_view(final(pairs)@) == pairs_view(old(pairs)@) + subject_fields(
            fields@,
            fields@.len(),
        ),
{
    let mut i: usize = 0;
    assert(pairs_view(pairs@) =~= pairs_view(old(pairs)@) + subject_fields(fields@, 0));
    while i < fields.len()
        invariant
            i <= fields.len(),
            pairs_view(pairs@) == pairs_view(old(pairs)@) + subject_fields(fields@, i as nat),
        decreases fields.len() - i,
    {
        let ghost before = pairs_view(pairs@);
        if !crate::text::str_eq(fields[i].0.as_str(), "retired") {
            pairs.push(
                (
                    fields[i].0.clone(),
                    FlatField::Same { value: trim_quotes(fields[i].1.text.as_str()) },
                ),
            );
            assert(pairs_view(pairs@) =~= before.push(
                (fields@[i as int].0@, FieldView::Same { value: unquoted(fields@[i as int].1.text@) }),
            ));
        }
        assert(pairs_view(pairs@) =~= pairs_view(old(pairs)@) + subject_fields(
            fields@,
            (i + 1) as nat,
        ));
        i += 1;
    }
}

/// Adds the pairs of the subject data: the fields of each entry that is an
/// object.
fn push_subject_data(pairs: &mut Vec<(String, FlatField)>, subjects: &Vec<(String, Json)>)
    ensures
        pairs_view(final(pairs)@) == pairs_view(old(pairs)@) + subject_pairs(
            subjects@,
            subjects@.len(),
        ),
{
    let mut i: usize = 0;
    assert(pairs_view(pairs@) =~= pairs_view(old(pairs)@) + subject_pairs(subjects@, 0));
    while i < subjects.len()
        invariant
            i <= subjects.len(),
            pairs_view(pairs@) == pairs_view(old(pairs)@) + subject_pairs(subjects@, i as nat),
        decreases subjects.len() - i,
    {
        let ghost before = pairs_view(pairs@);
        match &subjects[i].1.kind {
            JsonKind::Object(fields) => {
                push_subject_fields(pairs, fields);
            },
            _ => {},
        }
        assert(pairs_view(pairs@) =~= pairs_view(old(pairs)@) + subject_pairs(
            subjects@,
            (i + 1) as nat,
        ));
        i += 1;
    }
}

/// The pairs of a record whose three JSON texts have been read into the
/// given trees, in the order in which they enter its row.
pub fn flatten_parts(
    record: &RawRecord,
    annotations: &Option<Json>,
    metadata: &Option<Json>,
    subject_data: &Option<Json>,
) -> (r: Result<Vec<(String, FlatField)>, RecordError>)
    ensures
        match r {
            Ok(pairs) => parts_pairs(*record, *annotations, *metadata, *subject_data) == Ok::<
                Seq<Pair>,
                RecordFault,
            >(pairs_view(pairs@)),
            Err(e) => parts_pairs(*record, *annotations, *metadata, *subject_data) == Err::<
                Seq<Pair>,
                RecordFault,
            >(e@),
        },
{
    let tree = match annotations {
        Some(tree) => tree,
        None => {
            return Err(RecordError::Annotations);
        },
    };
    let tasks = match &tree.kind {
        JsonKind::Array(tasks) => tasks,
        _ => {
            return Err(RecordError::Annotations);
        },
    };
    let mut pairs: Vec<(String, FlatField)> = Vec::new();
    pairs.push((String::from_str("subject_id"), FlatField::Same { value: record.subject_ids.clone() }));
    let ghost first = pairs_view(pairs@);
    assert(first =~= seq![("subject_id"@, FieldView::Same { value: record.subject_ids@ })]);
    let mut i: usize = 0;
    assert(pairs_view(pairs@) =~= first + Seq::<Pair>::empty());
    while i < tasks.len()
        invariant
            i <= tasks.len(),
            *annotations == Some(*tree),
            tree.kind is Array,
            tree.kind->Array_0 == *tasks,
            flattened_first(*tasks, i as nat, Seq::empty()) is Ok,
            pairs_view(pairs@) == first + flattened_first(*tasks, i as nat, Seq::empty())->Ok_0,
        decreases tasks.len() - i,
    {
        let ghost fields = flattened_first(*tasks, i as nat, Seq::empty())->Ok_0;
        proof {
            reveal_strlit("");
            assert(""@ =~= Seq::<char>::empty());
        }
        match flatten_tasks(&tasks[i], "") {
            Ok(mut below) => {
                let ghost head = pairs_view(pairs@);
                let ghost tail = pairs_view(below@);
                pairs.append(&mut below);
                assert(pairs_view(pairs@) =~= head + tail);
                assert(head + tail =~= first + (fields + tail));
            },
            Err(e) => {
                proof {
                    lemma_fault_stays(*tasks, (i + 1) as nat, tasks.len() as nat, Seq::empty());
                }
                return Err(RecordError::Node(e));
            },
        }
        i += 1;
    }
    let stamps = match metadata {
        Some(stamps) => stamps,
        None => {
            return Err(RecordError::Metadata);
        },
    };
    match &stamps.kind {
        JsonKind::Object(_) => {},
        _ => {
            return Err(RecordError::Metadata);
        },
    }
    let data = match subject_data {
        Some(data) => data,
        None => {
            return Err(RecordError::SubjectData);
        },
    };
    let subjects = match &data.kind {
        JsonKind::Object(subjects) => subjects,
        _ => {
            return Err(RecordError::SubjectData);
        },
    };
    let ghost fields = flattened_first(*tasks, tasks.len() as nat, Seq::empty())->Ok_0;
    push_passthrough(&mut pairs, "classification_id", &record.classification_id);
    push_passthrough(&mut pairs, "user_name", &record.user_name);
    push_passthrough(&mut pairs, "gold_standard", &record.gold_standard);
    push_passthrough(&mut pairs, "expert", &record.expert);
    push_passthrough(&mut pairs, "workflow_version", &record.workflow_version);
    assert(pairs_view(pairs@) =~= first + fields + admin_pairs(*record));
    push_stamp(&mut pairs, stamps, "started_at");
    push_stamp(&mut pairs, stamps, "finished_at");
    assert(pairs_view(pairs@) =~= first + fields + admin_pairs(*record) + metadata_pairs(*stamps));
    push_subject_data(&mut pairs, subjects);
    Ok(pairs)
}

/// The pairs of a record, in the order in which they enter its row: its
/// three JSON texts are read, and the pairs are gathered from the trees.
pub fn flatten_record(record: &RawRecord) -> (r: Result<Vec<(String, FlatField)>, RecordError>)
    ensures
        match r {
            Ok(pairs) => record_pairs(*record) == Ok::<Seq<Pair>, RecordFault>(pairs_view(pairs@)),
            Err(e) => record_pairs(*record) == Err::<Seq<Pair>, RecordFault>(e@),
        },
{
    let annotations = parse_json(record.annotations.as_str());
    let metadata = parse_json(record.metadata.as_str());
    let subject_data = parse_json(record.subject_data.as_str());
    flatten_parts(record, &annotations, &metadata, &subject_data)
}

/// The row that holds the pairs, set in it one after the other: a key that
/// comes again keeps its place and takes the later value.
pub fn row_of(pairs: &Vec<(String, FlatField)>) -> (row: FlatRow)
    ensures
        row_entries(row) == inserted_all(Seq::empty(), pairs_view(pairs@)),
{
    let ghost all = pairs_view(pairs@);
    let mut row = row_new();
    let mut i: usize = 0;
    assert(all.take(0) =~= Seq::<Pair>::empty());
    while i < pairs.len()
        invariant
            i <= pairs.len(),
            all == pairs_view(pairs@),
            row_entries(row) == inserted_all(Seq::empty(), all.take(i as int)),
        decreases pairs.len() - i,
    {
        assert(all.take(i + 1).drop_last() =~= all.take(i as int));
        row_insert(&mut row, pairs[i].0.clone(), pairs[i].1.duplicate());
        i += 1;
    }
    assert(all.take(pairs.len() as int) =~= all);
    row
}

/// Why a batch of records could not be flattened: the record at `row` could
/// not be read, or holds a value of another shape than the column `column`.
#[derive(Clone, Debug, PartialEq, Eq)]
pub enum FlattenError {
    Record { row: usize, error: RecordError },
    Shape { row: usize, column: String },
}

/// A `FlattenError` as the contracts see it.
pub enum FlattenFault {
    Record { row: nat, fault: RecordFault },
    Shape { row: nat, column: Seq<char> },
}

impl View for FlattenError {
    type V = FlattenFault;

    open spec fn view(&self) -> FlattenFault {
        match *self {
            FlattenError::Record { row, error } => FlattenFault::Record {
                row: row as nat,
                fault: error@,
            },
            FlattenError::Shape { row, column } => FlattenFault::Shape {
                row: row as nat,
                column: column@,
            },
        }
    }
}

/// The table that the first `count` records make, added row by row to an
/// empty table: its columns and its rows. The first record that cannot be
/// read, or whose row clashes with the columns found so far, gives the fault.
pub open spec fn table_of(records: Seq<RawRecord>, count: nat) -> Result<
    (Entries, Seq<Entries>),
    FlattenFault,
>
    decreases count,
{
    if count == 0 || count > records.len() {
        Ok((Seq::empty(), Seq::empty()))
    } else {
        match table_of(records, (count - 1) as nat) {
            Err(fault) => Err(fault),
            Ok((schema, rows)) => match record_pairs(records[count - 1]) {
                Err(fault) => Err(FlattenFault::Record { row: (count - 1) as nat, fault }),
                Ok(pairs) => {
                    let row = inserted_all(Seq::empty(), pairs);
                    if has_clash(schema, row) {
                        Err(
                            FlattenFault::Shape {
                                row: (count - 1) as nat,
                                column: row[clash_index(schema, row)].0,
                            },
                        )
                    } else {
                        let wider = grown(schema, row, row.len());
                        Ok((wider, padded_all(wider, rows).push(fitted(wider, row))))
                    }
                },
            },
        }
    }
}

/// A fault among the first records is the fault of them all.
pub proof fn lemma_table_fault_stays(records: Seq<RawRecord>, count: nat, all: nat)
    requires
        1 <= count <= all <= records.len(),
        table_of(records, count) is Err,
    ensures
        table_of(records, all) == table_of(records, count),
    decreases all - count,
{
    if count < all {
        lemma_table_fault_stays(records, count, (all - 1) as nat);
    }
}

/// At every point of flattening a batch the table is aligned: whatever
/// number of records has been added, every stored row has a cell for every
/// column known by then, in the order of the columns, empty or of the shape
/// of its column.
pub proof fn lemma_table_aligned(records: Seq<RawRecord>, count: nat)
    requires
        count <= records.len(),
        table_of(records, count) is Ok,
    ensures
        table_wf(table_of(records, count)->Ok_0.0, table_of(records, count)->Ok_0.1),
    decreases count,
{
    if count > 0 {
        lemma_table_aligned(records, (count - 1) as nat);
        let (schema, rows) = table_of(records, (count - 1) as nat)->Ok_0;
        let row = inserted_all(Seq::empty(), record_pairs(records[count - 1])->Ok_0);
        lemma_add_row_aligned(schema, rows, row);
    }
}

/// Flattens a batch of classification records into a table: one row for each
/// record, in their order, one column for each field found, in the order of
/// first appearance. The first record that cannot be flattened ends the work
/// and is named by its position.
pub fn flatten(records: &Vec<RawRecord>, workflow_id: &str, workflow_name: &str) -> (r: Result<
    Flat,
    FlattenError,
>)
    ensures
        match r {
            Ok(table) => {
                &&& table.wf()
                &&& table.id() == workflow_id@
                &&& table.name() == workflow_name@
                &&& table_of(records@, records@.len()) == Ok::<
                    (Entries, Seq<Entries>),
                    FlattenFault,
                >((table.schema(), table.cells()))
            },
            Err(e) => table_of(records@, records@.len()) == Err::<
                (Entries, Seq<Entries>),
                FlattenFault,
            >(e@),
        },
{
    let mut flat = Flat::new(workflow_id, workflow_name);
    let mut i: usize = 0;
    while i < records.len()
        invariant
            i <= records.len(),
            flat.wf(),
            flat.id() == workflow_id@,
            flat.name() == workflow_name@,
            table_of(records@, i as nat) == Ok::<(Entries, Seq<Entries>), FlattenFault>(
                (flat.schema(), flat.cells()),
            ),
        decreases records.len() - i,
    {
        let pairs = match flatten_record(&records[i]) {
            Ok(pairs) => pairs,
            Err(error) => {
                proof {
                    lemma_table_fault_stays(records@, (i + 1) as nat, records@.len());
                }
                return Err(FlattenError::Record { row: i, error });
            },
        };
        let flat_row = row_of(&pairs);
        match flat.add_row(&flat_row) {
            Ok(()) => {},
            Err(mismatch) => {
                proof {
                    lemma_table_fault_stays(records@, (i + 1) as nat, records@.len());
                }
                return Err(FlattenError::Shape { row: i, column: mismatch.column });
            },
        }
        i += 1;
    }
    Ok(flat)
}

/// The id of the workflow to work on: the one that is given or, where none is
/// given, the one that all the records share. `None` where none is given and
/// the records share no single id.
pub fn get_workflow_id(workflow_id: &Option<String>, ids: &Vec<String>) -> (r: Option<String>)
    ensures
        match *workflow_id {
            Some(given) => r matches Some(id) && id@ == given@,
            None => match r {
                Some(id) => ids@.len() > 0 && forall|i: int|
                    0 <= i < ids@.len() ==> (#[trigger] ids@[i])@ == id@,
                None => ids@.len() == 0 || exists|i: int|
                    0 <= i < ids@.len() && (#[trigger] ids@[i])@ != ids@[0]@,
            },
        },
{
    match workflow_id {
        Some(given) => Some(given.clone()),
        None => {
            if ids.len() == 0 {
                return None;
            }
            let mut i: usize = 1;
            while i < ids.len()
                invariant
                    1 <= i <= ids.len(),
                    *workflow_id is None,
                    forall|k: int| 0 <= k < i ==> (#[trigger] ids@[k])@ == ids@[0]@,
                decreases ids.len() - i,
            {
                if !crate::text::str_eq(ids[i].as_str(), ids[0].as_str()) {
                    return None;
                }
                i += 1;
            }
            Some(ids[0].clone())
        },
    }
}

} // verus!
