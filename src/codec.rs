//! Reading result documents from JSON and writing them back.
use vstd::prelude::*;
use crate::error::NativeError;
use crate::json::{
    JsonTree, json_tree, json_parse, lists_object, object_entries, parse_text, tree_as_i64,
    tree_as_u64, trees_of, float_free, print_text, json_text, json_array, json_i64, json_object, json_str, json_u64,
};
use crate::protocol::{
    CompressedFields, Day, FieldValue, Item, Items, KeenError, KeenResult, Payload, ResultType,
    Row, Shape, StringOrI64, Timeframe, Window, distinct_names, has_name, item_days, pod_days,
    result_name, rows_of, window_wf,
};
use crate::time::{instant_of, utc_instant};

verus! {

pub open spec fn lookup(m: Map<Seq<char>, JsonTree>, k: Seq<char>) -> Option<JsonTree> {
    if m.contains_key(k) {
        Some(m[k])
    } else {
        None
    }
}

pub open spec fn null_text() -> Seq<char> {
    seq!['n', 'u', 'l', 'l']
}

/// A grouping value read from JSON: text stays text, an integer that fits
/// `i64` stays an integer, `null` becomes the text `"null"`, and anything
/// else (a boolean, a fraction, an integer beyond `i64`, a list, an object)
/// becomes the integer 0.
pub open spec fn field_of(t: JsonTree) -> FieldValue {
    match t {
        JsonTree::Str(s) => FieldValue::Text(s),
        JsonTree::Null => FieldValue::Text(null_text()),
        _ => match tree_as_i64(t) {
            Some(n) => FieldValue::Int(n as int),
            None => FieldValue::Int(0),
        },
    }
}

/// A row read from a JSON object: its `result` must be a non-negative
/// integer; its other members are the grouping fields.
pub open spec fn row_of(t: JsonTree) -> Option<Row> {
    match t {
        JsonTree::Object(m) => match lookup(m, result_name()) {
            Some(r) => match tree_as_u64(r) {
                Some(n) => Some(Row {
                    result: n as nat,
                    fields: m.remove(result_name()).map_values(|x: JsonTree| field_of(x)),
                }),
                None => None,
            },
            None => None,
        },
        _ => None,
    }
}

/// The rows read from a JSON list, the rows with a zero count left out.
pub open spec fn rows_of_trees(items: Seq<JsonTree>) -> Option<Seq<Row>>
    decreases items.len(),
{
    if items.len() == 0 {
        Some(Seq::empty())
    } else {
        match (rows_of_trees(items.drop_last()), row_of(items.last())) {
            (Some(rows), Some(row)) => Some(if row.result == 0 { rows } else { rows.push(row) }),
            _ => None,
        }
    }
}

pub open spec fn start_name() -> Seq<char> {
    seq!['s', 't', 'a', 'r', 't']
}

pub open spec fn end_name() -> Seq<char> {
    seq!['e', 'n', 'd']
}

pub open spec fn value_name() -> Seq<char> {
    seq!['v', 'a', 'l', 'u', 'e']
}

pub open spec fn timeframe_name() -> Seq<char> {
    seq!['t', 'i', 'm', 'e', 'f', 'r', 'a', 'm', 'e']
}

/// A window read from `{"start": ..., "end": ...}`; both must be timestamps.
pub open spec fn window_of(t: JsonTree) -> Option<Window> {
    match t {
        JsonTree::Object(m) => match (lookup(m, start_name()), lookup(m, end_name())) {
            (Some(JsonTree::Str(s)), Some(JsonTree::Str(e))) => match (instant_of(utc_instant(s)), instant_of(utc_instant(e))) {
                (Some(a), Some(b)) => Some(Window { start: s, end: e, from: a, to: b }),
                _ => None,
            },
            _ => None,
        },
        _ => None,
    }
}

/// The value and the window of `{"value": ..., "timeframe": ...}`.
pub open spec fn bucket_parts(t: JsonTree) -> Option<(JsonTree, Window)> {
    match t {
        JsonTree::Object(m) => match (lookup(m, value_name()), lookup(m, timeframe_name())) {
            (Some(v), Some(w)) => match window_of(w) {
                Some(win) => Some((v, win)),
                None => None,
            },
            _ => None,
        },
        _ => None,
    }
}

pub open spec fn scalar_buckets_of(items: Seq<JsonTree>) -> Option<Seq<(Window, int)>>
    decreases items.len(),
{
    if items.len() == 0 {
        Some(Seq::empty())
    } else {
        match (scalar_buckets_of(items.drop_last()), bucket_parts(items.last())) {
            (Some(b), Some((v, w))) => match tree_as_i64(v) {
                Some(n) => Some(b.push((w, n as int))),
                None => None,
            },
            _ => None,
        }
    }
}

pub open spec fn row_buckets_of(items: Seq<JsonTree>) -> Option<Seq<(Window, Seq<Row>)>>
    decreases items.len(),
{
    if items.len() == 0 {
        Some(Seq::empty())
    } else {
        match (row_buckets_of(items.drop_last()), bucket_parts(items.last())) {
            (Some(b), Some((JsonTree::Array(rows), w))) => match rows_of_trees(rows) {
                Some(rs) => Some(b.push((w, rs))),
                None => None,
            },
            _ => None,
        }
    }
}

/// The result of shape `tp` read from a document `{"result": ...}`; `None`
/// where the document does not have that shape.
pub open spec fn decode_shape(tp: ResultType, t: JsonTree) -> Option<Shape> {
    match t {
        JsonTree::Object(m) => match (tp, lookup(m, result_name())) {
            (ResultType::POD, Some(v)) => match tree_as_i64(v) {
                Some(n) => Some(Shape::Scalar(n as int)),
                None => None,
            },
            (ResultType::Items, Some(JsonTree::Array(items))) => match rows_of_trees(items) {
                Some(rows) => Some(Shape::Rows(rows)),
                None => None,
            },
            (ResultType::DaysPOD, Some(JsonTree::Array(items))) => match scalar_buckets_of(items) {
                Some(b) => Some(Shape::ScalarBuckets(b)),
                None => None,
            },
            (ResultType::DaysItems, Some(JsonTree::Array(items))) => match row_buckets_of(items) {
                Some(b) => Some(Shape::RowBuckets(b)),
                None => None,
            },
            _ => None,
        },
        _ => None,
    }
}

/// Where `key` stands among the entries of an object.
fn find_entry(entries: &Vec<(String, serde_json::Value)>, key: &str) -> (r: Option<usize>)
    ensures
        match r {
            Some(i) => i < entries@.len() && entries@[i as int].0@ == key@,
            None => !has_name(entries@, key@),
        },
{
    let k = key.to_owned();
    let mut i: usize = 0;
    while i < entries.len()
        invariant
            k@ == key@,
            i <= entries@.len(),
            forall|j: int| 0 <= j < i ==> entries@[j].0@ != key@,
        decreases entries@.len() - i,
    {
        if entries[i].0 == k {
            return Some(i);
        }
        i = i + 1;
    }
    None
}

/// The member `key` of an object.
fn member<'a>(entries: &'a Vec<(String, serde_json::Value)>, key: &str, m: Ghost<Map<Seq<char>, JsonTree>>) -> (r: Option<&'a serde_json::Value>)
    requires
        lists_object(entries@, m@),
    ensures
        match lookup(m@, key@) {
            Some(t) => r is Some && json_tree(*r->0) == t,
            None => r is None,
        },
{
    match find_entry(entries, key) {
        Some(i) => Some(&entries[i].1),
        None => None,
    }
}

fn field_value(v: &serde_json::Value) -> (r: StringOrI64)
    ensures
        r@ == field_of(json_tree(*v)),
{
    if let Some(s) = v.as_str() {
        StringOrI64::String(s.to_owned())
    } else if v.is_null() {
        proof {
            reveal_strlit("null");
        }
        let t = "null".to_owned();
        assert(t@ =~= null_text());
        StringOrI64::String(t)
    } else {
        match v.as_i64() {
            Some(n) => StringOrI64::I64(n),
            None => StringOrI64::I64(0),
        }
    }
}

pub open spec fn read_from(entries: Seq<(String, serde_json::Value)>, n: int, e: (String, StringOrI64)) -> bool {
    exists|j: int| 0 <= j < n && entries[j].0@ == e.0@ && e.1@ == field_of(json_tree(entries[j].1))
}

/// A row read from a JSON object.
fn decode_row(v: &serde_json::Value) -> (r: Option<Item>)
    ensures
        match row_of(json_tree(*v)) {
            Some(row) => r is Some && r->0@ == row && r->0.fields.wf()
                && !r->0.fields@.contains_key(result_name()),
            None => r is None,
        },
{
    let entries = match object_entries(v) {
        Some(e) => e,
        None => return None,
    };
    let ghost m = json_tree(*v)->Object_0;
    proof {
        reveal_strlit("result");
    }
    let result_key = "result".to_owned();
    assert(result_key@ =~= result_name());
    let mut count: Option<u64> = None;
    let mut found = false;
    let mut fields: Vec<(String, StringOrI64)> = Vec::new();
    let mut i: usize = 0;
    while i < entries.len()
        invariant
            lists_object(entries@, m),
            result_key@ == result_name(),
            i <= entries@.len(),
            found <==> has_name(entries@.subrange(0, i as int), result_name()),
            found ==> m.contains_key(result_name()) && count == tree_as_u64(m[result_name()]),
            distinct_names(fields@),
            forall|j: int| 0 <= j < fields@.len() ==> fields@[j].0@ != result_name(),
            forall|j: int| 0 <= j < fields@.len() ==> read_from(entries@, i as int, #[trigger] fields@[j]),
            forall|j: int| 0 <= j < i && entries@[j].0@ != result_name() ==> has_name(fields@, #[trigger] entries@[j].0@),
        decreases entries@.len() - i,
    {
        let ghost before = fields@;
        if entries[i].0 == result_key {
            found = true;
            count = entries[i].1.as_u64();
            assert(entries@.subrange(0, i as int + 1)[i as int].0@ == result_name());
        } else {
            proof {
                assert forall|j: int| 0 <= j < before.len() implies before[j].0@ != entries@[i as int].0@ by {
                    assert(read_from(entries@, i as int, before[j]));
                    let k = choose|k: int| 0 <= k < i && entries@[k].0@ == before[j].0@ && before[j].1@ == field_of(json_tree(entries@[k].1));
                    assert(k != i);
                }
            }
            fields.push((entries[i].0.clone(), field_value(&entries[i].1)));
            proof {
                assert forall|j: int| 0 <= j < i + 1 && entries@[j].0@ != result_name() implies has_name(fields@, #[trigger] entries@[j].0@) by {
                    if j < i {
                        let q = choose|q: int| 0 <= q < before.len() && before[q].0@ == entries@[j].0@;
                        assert(fields@[q] == before[q]);
                    } else {
                        assert(fields@[before.len() as int].0@ == entries@[j].0@);
                    }
                }
                assert forall|j: int| 0 <= j < fields@.len() implies read_from(entries@, i + 1, #[trigger] fields@[j]) by {
                    if j < before.len() {
                        assert(fields@[j] == before[j]);
                        assert(read_from(entries@, i as int, before[j]));
                    } else {
                        assert(entries@[i as int].0@ == fields@[j].0@);
                    }
                }
            }
        }
        proof {
            let pre = entries@.subrange(0, i as int);
            let next = entries@.subrange(0, i as int + 1);
            if has_name(next, result_name()) && !(entries@[i as int].0@ == result_name()) {
                let q = choose|q: int| 0 <= q < next.len() && next[q].0@ == result_name();
                assert(pre[q] == next[q]);
            }
            if has_name(pre, result_name()) {
                let q = choose|q: int| 0 <= q < pre.len() && pre[q].0@ == result_name();
                assert(pre[q] == next[q]);
            }
        }
        i = i + 1;
    }
    assert(entries@.subrange(0, i as int) =~= entries@);
    if !found {
        return None;
    }
    match count {
        None => None,
        Some(n) => {
            let item = Item { result: n, fields: CompressedFields(fields) };
            proof {
                let want = m.remove(result_name()).map_values(|x: JsonTree| field_of(x));
                let got = item.fields@;
                assert forall|k: Seq<char>| #[trigger] got.contains_key(k) <==> want.contains_key(k) by {
                    if got.contains_key(k) {
                        let j = choose|j: int| 0 <= j < fields@.len() && fields@[j].0@ == k;
                        assert(read_from(entries@, entries@.len() as int, fields@[j]));
                    }
                    if want.contains_key(k) {
                        let q = choose|q: int| 0 <= q < entries@.len() && entries@[q].0@ == k;
                        assert(has_name(fields@, entries@[q].0@));
                    }
                }
                assert forall|k: Seq<char>| #[trigger] got.contains_key(k) implies got[k] == want[k] by {
                    let j = choose|j: int| 0 <= j < fields@.len() && fields@[j].0@ == k;
                    item.fields.lemma_entry(j);
                    assert(read_from(entries@, entries@.len() as int, fields@[j]));
                    let q = choose|q: int| 0 <= q < entries@.len() && entries@[q].0@ == fields@[j].0@ && fields@[j].1@ == field_of(json_tree(entries@[q].1));
                    assert(m[entries@[q].0@] == json_tree(entries@[q].1));
                }
                assert(got =~= want);
            }
            Some(item)
        },
    }
}

/// The rows of a JSON list, the rows with a zero count left out.
fn decode_rows(items: &Vec<serde_json::Value>) -> (r: Option<Items>)
    ensures
        match rows_of_trees(trees_of(items@)) {
            Some(rows) => r is Some && r->0@ == rows && r->0.wf(),
            None => r is None,
        },
{
    let ghost t = trees_of(items@);
    let mut out: Vec<Item> = Vec::new();
    let mut ok = true;
    let mut i: usize = 0;
    while i < items.len()
        invariant
            t == trees_of(items@),
            i <= items@.len(),
            ok ==> rows_of_trees(t.subrange(0, i as int)) == Some(rows_of(out@)),
            !ok ==> rows_of_trees(t.subrange(0, i as int)) is None,
            forall|j: int| 0 <= j < out@.len() ==> #[trigger] out@[j].wf(),
        decreases items@.len() - i,
    {
        proof {
            let sub = t.subrange(0, i as int + 1);
            assert(sub.drop_last() =~= t.subrange(0, i as int));
            assert(sub.last() == json_tree(items@[i as int]));
        }
        if ok {
            match decode_row(&items[i]) {
                Some(item) => {
                    if item.result != 0 {
                        let ghost before = out@;
                        out.push(item);
                        assert(rows_of(out@) =~= rows_of(before).push(item@));
                    }
                },
                None => {
                    ok = false;
                },
            }
        }
        i = i + 1;
    }
    assert(t.subrange(0, i as int) =~= t);
    if ok {
        Some(Items(out))
    } else {
        None
    }
}

/// A window read from `{"start": ..., "end": ...}`.
fn decode_window(v: &serde_json::Value) -> (r: Option<Timeframe>)
    ensures
        match window_of(json_tree(*v)) {
            Some(w) => r is Some && r->0@ == w,
            None => r is None,
        },
{
    let entries = match object_entries(v) {
        Some(e) => e,
        None => return None,
    };
    let ghost m = json_tree(*v)->Object_0;
    proof {
        reveal_strlit("start");
        reveal_strlit("end");
        assert("start"@ =~= start_name());
        assert("end"@ =~= end_name());
    }
    let start = match member(&entries, "start", Ghost(m)) {
        Some(x) => match x.as_str() {
            Some(s) => s.to_owned(),
            None => return None,
        },
        None => return None,
    };
    let end = match member(&entries, "end", Ghost(m)) {
        Some(x) => match x.as_str() {
            Some(s) => s.to_owned(),
            None => return None,
        },
        None => return None,
    };
    Timeframe::new(start, end)
}

/// The entries of a bucket object and the window it names.
fn bucket_frame(v: &serde_json::Value) -> (r: Option<(Vec<(String, serde_json::Value)>, Timeframe)>)
    ensures
        match bucket_parts(json_tree(*v)) {
            Some((val, w)) => match r {
                Some((entries, frame)) => frame@ == w && window_wf(w)
                    && lists_object(entries@, json_tree(*v)->Object_0)
                    && lookup(json_tree(*v)->Object_0, value_name()) == Some(val),
                None => false,
            },
            None => r is None,
        },
{
    let entries = match object_entries(v) {
        Some(e) => e,
        None => return None,
    };
    let ghost m = json_tree(*v)->Object_0;
    proof {
        reveal_strlit("value");
        reveal_strlit("timeframe");
        assert("value"@ =~= value_name());
        assert("timeframe"@ =~= timeframe_name());
    }
    if member(&entries, "value", Ghost(m)).is_none() {
        return None;
    }
    let frame = match member(&entries, "timeframe", Ghost(m)) {
        Some(x) => match decode_window(x) {
            Some(w) => w,
            None => return None,
        },
        None => return None,
    };
    Some((entries, frame))
}

fn decode_scalar_bucket(v: &serde_json::Value) -> (r: Option<Day<i64>>)
    ensures
        match bucket_parts(json_tree(*v)) {
            Some((val, w)) => match tree_as_i64(val) {
                Some(n) => r is Some && r->0.value == n && r->0.timeframe@ == w && window_wf(w),
                None => r is None,
            },
            None => r is None,
        },
{
    let (entries, frame) = match bucket_frame(v) {
        Some(p) => p,
        None => return None,
    };
    let ghost m = json_tree(*v)->Object_0;
    proof {
        reveal_strlit("value");
        assert("value"@ =~= value_name());
    }
    match member(&entries, "value", Ghost(m)) {
        Some(x) => match x.as_i64() {
            Some(n) => Some(Day { value: n, timeframe: frame }),
            None => None,
        },
        None => None,
    }
}

fn decode_row_bucket(v: &serde_json::Value) -> (r: Option<Day<Items>>)
    ensures
        match bucket_parts(json_tree(*v)) {
            Some((JsonTree::Array(rows), w)) => match rows_of_trees(rows) {
                Some(rs) => r is Some && r->0.value@ == rs && r->0.value.wf() && r->0.timeframe@ == w && window_wf(w),
                None => r is None,
            },
            _ => r is None,
        },
{
    let (entries, frame) = match bucket_frame(v) {
        Some(p) => p,
        None => return None,
    };
    let ghost m = json_tree(*v)->Object_0;
    proof {
        reveal_strlit("value");
        assert("value"@ =~= value_name());
    }
    match member(&entries, "value", Ghost(m)) {
        Some(x) => match x.as_array() {
            Some(rows) => match decode_rows(rows) {
                Some(items) => Some(Day { value: items, timeframe: frame }),
                None => None,
            },
            None => None,
        },
        None => None,
    }
}

fn decode_scalar_buckets(items: &Vec<serde_json::Value>) -> (r: Option<Vec<Day<i64>>>)
    ensures
        match scalar_buckets_of(trees_of(items@)) {
            Some(b) => r is Some && pod_days(r->0@) == b
                && forall|j: int| 0 <= j < r->0@.len() ==> window_wf(#[trigger] r->0@[j].timeframe@),
            None => r is None,
        },
{
    let ghost t = trees_of(items@);
    let mut out: Vec<Day<i64>> = Vec::new();
    let mut ok = true;
    let mut i: usize = 0;
    while i < items.len()
        invariant
            t == trees_of(items@),
            i <= items@.len(),
            ok ==> scalar_buckets_of(t.subrange(0, i as int)) == Some(pod_days(out@)),
            !ok ==> scalar_buckets_of(t.subrange(0, i as int)) is None,
            forall|j: int| 0 <= j < out@.len() ==> window_wf(#[trigger] out@[j].timeframe@),
        decreases items@.len() - i,
    {
        proof {
            let sub = t.subrange(0, i as int + 1);
            assert(sub.drop_last() =~= t.subrange(0, i as int));
            assert(sub.last() == json_tree(items@[i as int]));
        }
        if ok {
            match decode_scalar_bucket(&items[i]) {
                Some(day) => {
                    let ghost before = out@;
                    out.push(day);
                    assert(pod_days(out@) =~= pod_days(before).push((day.timeframe@, day.value as int)));
                },
                None => {
                    ok = false;
                },
            }
        }
        i = i + 1;
    }
    assert(t.subrange(0, i as int) =~= t);
    if ok {
        Some(out)
    } else {
        None
    }
}

fn decode_row_buckets(items: &Vec<serde_json::Value>) -> (r: Option<Vec<Day<Items>>>)
    ensures
        match row_buckets_of(trees_of(items@)) {
            Some(b) => r is Some && item_days(r->0@) == b
                && forall|j: int| 0 <= j < r->0@.len() ==> window_wf(#[trigger] r->0@[j].timeframe@) && r->0@[j].value.wf(),
            None => r is None,
        },
{
    let ghost t = trees_of(items@);
    let mut out: Vec<Day<Items>> = Vec::new();
    let mut ok = true;
    let mut i: usize = 0;
    while i < items.len()
        invariant
            t == trees_of(items@),
            i <= items@.len(),
            ok ==> row_buckets_of(t.subrange(0, i as int)) == Some(item_days(out@)),
            !ok ==> row_buckets_of(t.subrange(0, i as int)) is None,
            forall|j: int| 0 <= j < out@.len() ==> window_wf(#[trigger] out@[j].timeframe@) && out@[j].value.wf(),
        decreases items@.len() - i,
    {
        proof {
            let sub = t.subrange(0, i as int + 1);
            assert(sub.drop_last() =~= t.subrange(0, i as int));
            assert(sub.last() == json_tree(items@[i as int]));
        }
        if ok {
            match decode_row_bucket(&items[i]) {
                Some(day) => {
                    let ghost before = out@;
                    out.push(day);
                    assert(item_days(out@) =~= item_days(before).push((day.timeframe@, day.value@)));
                },
                None => {
                    ok = false;
                },
            }
        }
        i = i + 1;
    }
    assert(t.subrange(0, i as int) =~= t);
    if ok {
        Some(out)
    } else {
        None
    }
}

/// Reads a result of shape `tp` from a JSON document `{"result": ...}`.
pub fn decode_value(v: &serde_json::Value, tp: ResultType) -> (r: Result<KeenResult, NativeError>)
    ensures
        match decode_shape(tp, json_tree(*v)) {
            Some(s) => r is Ok && r->Ok_0@ == s && r->Ok_0.wf(),
            None => r is Err && r->Err_0 is ParseError,
        },
{
    let entries = match object_entries(v) {
        Some(e) => e,
        None => return Err(NativeError::ParseError),
    };
    let ghost m = json_tree(*v)->Object_0;
    proof {
        reveal_strlit("result");
        assert("result"@ =~= result_name());
    }
    let body = match member(&entries, "result", Ghost(m)) {
        Some(x) => x,
        None => return Err(NativeError::ParseError),
    };
    let payload = match tp {
        ResultType::POD => match body.as_i64() {
            Some(n) => Payload::Pod(n),
            None => return Err(NativeError::ParseError),
        },
        ResultType::Items => match body.as_array() {
            Some(items) => match decode_rows(items) {
                Some(rows) => Payload::Items(rows),
                None => return Err(NativeError::ParseError),
            },
            None => return Err(NativeError::ParseError),
        },
        ResultType::DaysPOD => match body.as_array() {
            Some(items) => match decode_scalar_buckets(items) {
                Some(days) => Payload::DaysPod(days),
                None => return Err(NativeError::ParseError),
            },
            None => return Err(NativeError::ParseError),
        },
        ResultType::DaysItems => match body.as_array() {
            Some(items) => match decode_row_buckets(items) {
                Some(days) => Payload::DaysItems(days),
                None => return Err(NativeError::ParseError),
            },
            None => return Err(NativeError::ParseError),
        },
    };
    Ok(KeenResult { result: payload })
}

impl KeenResult {
    /// Reads a result of shape `tp` from the JSON text of a document
    /// `{"result": ...}`. Fails with `ParseError` where the text is not JSON
    /// or the document does not have that shape.
    pub fn from_str(payload: &str, tp: ResultType) -> (r: Result<KeenResult, NativeError>)
        ensures
            match json_parse(payload@) {
                Some(t) => match decode_shape(tp, t) {
                    Some(s) => r is Ok && r->Ok_0@ == s && r->Ok_0.wf(),
                    None => r is Err && r->Err_0 is ParseError,
                },
                None => r is Err && r->Err_0 is ParseError,
            },
    {
        match parse_text(payload) {
            Some(v) => decode_value(&v, tp),
            None => Err(NativeError::ParseError),
        }
    }
}

/// A grouping value written as JSON.
pub open spec fn field_tree(v: FieldValue) -> JsonTree {
    match v {
        FieldValue::Text(s) => JsonTree::Str(s),
        FieldValue::Int(n) => JsonTree::Int(n),
    }
}

/// A row written as a JSON object: its fields and its `result`.
pub open spec fn row_tree(r: Row) -> JsonTree {
    JsonTree::Object(
        r.fields.map_values(|v: FieldValue| field_tree(v)).insert(result_name(), JsonTree::Int(r.result as int)),
    )
}

pub open spec fn rows_tree(rows: Seq<Row>) -> JsonTree {
    JsonTree::Array(rows.map_values(|r: Row| row_tree(r)))
}

pub open spec fn window_tree(w: Window) -> JsonTree {
    JsonTree::Object(
        Map::<Seq<char>, JsonTree>::empty().insert(start_name(), JsonTree::Str(w.start)).insert(end_name(), JsonTree::Str(w.end)),
    )
}

pub open spec fn bucket_tree(v: JsonTree, w: Window) -> JsonTree {
    JsonTree::Object(
        Map::<Seq<char>, JsonTree>::empty().insert(value_name(), v).insert(timeframe_name(), window_tree(w)),
    )
}

pub open spec fn payload_tree(s: Shape) -> JsonTree {
    match s {
        Shape::Scalar(n) => JsonTree::Int(n),
        Shape::Rows(rows) => rows_tree(rows),
        Shape::ScalarBuckets(b) => JsonTree::Array(
            b.map_values(|p: (Window, int)| bucket_tree(JsonTree::Int(p.1), p.0)),
        ),
        Shape::RowBuckets(b) => JsonTree::Array(
            b.map_values(|p: (Window, Seq<Row>)| bucket_tree(rows_tree(p.1), p.0)),
        ),
    }
}

/// A result written as the JSON document `{"result": ...}`.
pub open spec fn shape_tree(s: Shape) -> JsonTree {
    JsonTree::Object(Map::<Seq<char>, JsonTree>::empty().insert(result_name(), payload_tree(s)))
}

/// The object built from distinct entries is the map they list.
proof fn lemma_object_is(entries: Seq<(String, serde_json::Value)>, m: Map<Seq<char>, JsonTree>, want: Map<Seq<char>, JsonTree>)
    requires
        lists_object(entries, m),
        forall|k: Seq<char>| #[trigger] want.contains_key(k) <==> has_name(entries, k),
        forall|i: int| 0 <= i < entries.len() ==> want[#[trigger] entries[i].0@] == json_tree(entries[i].1),
    ensures
        m == want,
{
    assert forall|k: Seq<char>| #[trigger] m.contains_key(k) <==> want.contains_key(k) by {
        if m.contains_key(k) {
            let i = choose|i: int| 0 <= i < entries.len() && entries[i].0@ == k;
            assert(has_name(entries, k));
        }
    }
    assert forall|k: Seq<char>| #[trigger] m.contains_key(k) implies m[k] == want[k] by {
        let i = choose|i: int| 0 <= i < entries.len() && entries[i].0@ == k;
        assert(m[entries[i].0@] == json_tree(entries[i].1));
    }
    assert(m =~= want);
}

fn encode_field(v: &StringOrI64) -> (r: serde_json::Value)
    ensures
        json_tree(r) == field_tree(v@),
{
    match v {
        StringOrI64::String(s) => json_str(s.clone()),
        StringOrI64::I64(n) => json_i64(*n),
    }
}

fn encode_row(item: &Item) -> (r: serde_json::Value)
    requires
        item.fields.wf(),
        !item.fields@.contains_key(result_name()),
    ensures
        json_tree(r) == row_tree(item@),
{
    let fields = &item.fields.0;
    let mut entries: Vec<(String, serde_json::Value)> = Vec::new();
    let mut i: usize = 0;
    while i < fields.len()
        invariant
            fields == &item.fields.0,
            item.fields.wf(),
            i <= fields@.len(),
            entries@.len() == i,
            forall|j: int| 0 <= j < i ==> (#[trigger] entries@[j]).0@ == fields@[j].0@
                && json_tree(entries@[j].1) == field_tree(fields@[j].1@),
        decreases fields@.len() - i,
    {
        entries.push((fields[i].0.clone(), encode_field(&fields[i].1)));
        i = i + 1;
    }
    proof {
        reveal_strlit("result");
    }
    let key = "result".to_owned();
    assert(key@ =~= result_name());
    entries.push((key, json_u64(item.result)));
    let ghost n = fields@.len() as int;
    proof {
        assert forall|a: int, b: int| 0 <= a < entries@.len() && 0 <= b < entries@.len() && a != b
            implies entries@[a].0@ != entries@[b].0@ by {
            if a < n && b < n {
                assert(entries@[a].0@ == fields@[a].0@);
                assert(entries@[b].0@ == fields@[b].0@);
            } else if a < n {
                item.fields.lemma_entry(a);
                assert(entries@[a].0@ == fields@[a].0@);
            } else if b < n {
                item.fields.lemma_entry(b);
                assert(entries@[b].0@ == fields@[b].0@);
            }
        }
    }
    let r = json_object(entries);
    proof {
        let want = row_tree(item@)->Object_0;
        assert forall|k: Seq<char>| #[trigger] want.contains_key(k) <==> has_name(entries@, k) by {
            if want.contains_key(k) {
                if k == result_name() {
                    assert(entries@[n].0@ == k);
                } else {
                    let j = choose|j: int| 0 <= j < fields@.len() && fields@[j].0@ == k;
                    assert(entries@[j].0@ == k);
                }
            }
            if has_name(entries@, k) {
                let j = choose|j: int| 0 <= j < entries@.len() && entries@[j].0@ == k;
                if j < n {
                    assert(entries@[j].0@ == fields@[j].0@);
                    assert(has_name(fields@, k));
                }
            }
        }
        assert forall|i: int| 0 <= i < entries@.len() implies want[#[trigger] entries@[i].0@] == json_tree(entries@[i].1) by {
            if i < n {
                assert(entries@[i].0@ == fields@[i].0@);
                item.fields.lemma_entry(i);
            }
        }
        lemma_object_is(entries@, json_tree(r)->Object_0, want);
    }
    r
}

fn encode_rows(items: &Items) -> (r: serde_json::Value)
    requires
        items.wf(),
    ensures
        json_tree(r) == rows_tree(items@),
{
    let mut out: Vec<serde_json::Value> = Vec::new();
    let mut i: usize = 0;
    while i < items.0.len()
        invariant
            items.wf(),
            i <= items.0@.len(),
            trees_of(out@) =~= items@.map_values(|r: Row| row_tree(r)).subrange(0, i as int),
        decreases items.0@.len() - i,
    {
        assert(items.0@[i as int].wf());
        let v = encode_row(&items.0[i]);
        let ghost before = out@;
        out.push(v);
        assert(trees_of(out@) =~= trees_of(before).push(json_tree(v)));
        i = i + 1;
    }
    assert(trees_of(out@) =~= items@.map_values(|r: Row| row_tree(r)));
    json_array(out)
}

fn encode_window(tf: &Timeframe) -> (r: serde_json::Value)
    ensures
        json_tree(r) == window_tree(tf@),
{
    proof {
        reveal_strlit("start");
        reveal_strlit("end");
    }
    let mut entries: Vec<(String, serde_json::Value)> = Vec::new();
    let k1 = "start".to_owned();
    let k2 = "end".to_owned();
    assert(k1@ =~= start_name());
    assert(k2@ =~= end_name());
    entries.push((k1, json_str(tf.start.clone())));
    entries.push((k2, json_str(tf.end.clone())));
    assert(entries@[0].0@.len() != entries@[1].0@.len());
    let r = json_object(entries);
    proof {
        let want = window_tree(tf@)->Object_0;
        assert(start_name() != end_name());
        assert forall|k: Seq<char>| #[trigger] want.contains_key(k) <==> has_name(entries@, k) by {
            if want.contains_key(k) {
                if k == start_name() {
                    assert(entries@[0].0@ == k);
                } else {
                    assert(entries@[1].0@ == k);
                }
            }
        }
        lemma_object_is(entries@, json_tree(r)->Object_0, want);
    }
    r
}

fn encode_bucket(value: serde_json::Value, tf: &Timeframe) -> (r: serde_json::Value)
    ensures
        json_tree(r) == bucket_tree(json_tree(value), tf@),
{
    proof {
        reveal_strlit("value");
        reveal_strlit("timeframe");
    }
    let ghost vt = json_tree(value);
    let mut entries: Vec<(String, serde_json::Value)> = Vec::new();
    let k1 = "value".to_owned();
    let k2 = "timeframe".to_owned();
    assert(k1@ =~= value_name());
    assert(k2@ =~= timeframe_name());
    entries.push((k1, value));
    entries.push((k2, encode_window(tf)));
    assert(entries@[0].0@.len() != entries@[1].0@.len());
    let r = json_object(entries);
    proof {
        let want = bucket_tree(vt, tf@)->Object_0;
        assert(value_name() != timeframe_name());
        assert forall|k: Seq<char>| #[trigger] want.contains_key(k) <==> has_name(entries@, k) by {
            if want.contains_key(k) {
                if k == value_name() {
                    assert(entries@[0].0@ == k);
                } else {
                    assert(entries@[1].0@ == k);
                }
            }
        }
        lemma_object_is(entries@, json_tree(r)->Object_0, want);
    }
    r
}

pub open spec fn pod_bucket_trees(b: Seq<(Window, int)>) -> Seq<JsonTree> {
    b.map_values(|p: (Window, int)| bucket_tree(JsonTree::Int(p.1), p.0))
}

pub open spec fn item_bucket_trees(b: Seq<(Window, Seq<Row>)>) -> Seq<JsonTree> {
    b.map_values(|p: (Window, Seq<Row>)| bucket_tree(rows_tree(p.1), p.0))
}

fn encode_pod_days(days: &Vec<Day<i64>>) -> (r: serde_json::Value)
    ensures
        json_tree(r) == JsonTree::Array(pod_bucket_trees(pod_days(days@))),
{
    let mut out: Vec<serde_json::Value> = Vec::new();
    let mut i: usize = 0;
    while i < days.len()
        invariant
            i <= days@.len(),
            trees_of(out@) =~= pod_bucket_trees(pod_days(days@)).subrange(0, i as int),
        decreases days@.len() - i,
    {
        let v = encode_bucket(json_i64(days[i].value), &days[i].timeframe);
        let ghost before = out@;
        out.push(v);
        assert(trees_of(out@) =~= trees_of(before).push(json_tree(v)));
        i = i + 1;
    }
    assert(trees_of(out@) =~= pod_bucket_trees(pod_days(days@)));
    json_array(out)
}

fn encode_item_days(days: &Vec<Day<Items>>) -> (r: serde_json::Value)
    requires
        forall|j: int| 0 <= j < days@.len() ==> (#[trigger] days@[j]).value.wf(),
    ensures
        json_tree(r) == JsonTree::Array(item_bucket_trees(item_days(days@))),
{
    let mut out: Vec<serde_json::Value> = Vec::new();
    let mut i: usize = 0;
    while i < days.len()
        invariant
            forall|j: int| 0 <= j < days@.len() ==> (#[trigger] days@[j]).value.wf(),
            i <= days@.len(),
            trees_of(out@) =~= item_bucket_trees(item_days(days@)).subrange(0, i as int),
        decreases days@.len() - i,
    {
        assert(days@[i as int].value.wf());
        let v = encode_bucket(encode_rows(&days[i].value), &days[i].timeframe);
        let ghost before = out@;
        out.push(v);
        assert(trees_of(out@) =~= trees_of(before).push(json_tree(v)));
        i = i + 1;
    }
    assert(trees_of(out@) =~= item_bucket_trees(item_days(days@)));
    json_array(out)
}

impl KeenResult {
    /// The JSON document `{"result": ...}` of this result.
    pub fn to_value(&self) -> (r: serde_json::Value)
        requires
            self.wf(),
        ensures
            json_tree(r) == shape_tree(self@),
    {
        let body = match &self.result {
            Payload::Pod(n) => json_i64(*n),
            Payload::Items(items) => encode_rows(items),
            Payload::DaysPod(days) => encode_pod_days(days),
            Payload::DaysItems(days) => {
                assert forall|j: int| 0 <= j < days@.len() implies (#[trigger] days@[j]).value.wf() by {
                    assert(window_wf(days@[j].timeframe@) && days@[j].value.wf());
                }
                encode_item_days(days)
            },
        };
        proof {
            reveal_strlit("result");
        }
        let key = "result".to_owned();
        assert(key@ =~= result_name());
        let mut entries: Vec<(String, serde_json::Value)> = Vec::new();
        entries.push((key, body));
        let r = json_object(entries);
        proof {
            let want = shape_tree(self@)->Object_0;
            assert forall|k: Seq<char>| #[trigger] want.contains_key(k) <==> has_name(entries@, k) by {
                if want.contains_key(k) {
                    assert(entries@[0].0@ == k);
                }
            }
            lemma_object_is(entries@, json_tree(r)->Object_0, want);
        }
        r
    }
}

proof fn lemma_row_tree_float_free(r: Row)
    ensures
        float_free(row_tree(r)),
{
    let m = row_tree(r)->Object_0;
    assert forall|k: Seq<char>| #[trigger] m.contains_key(k) implies float_free(m[k]) by {
        if k != result_name() {
            assert(m[k] == field_tree(r.fields[k]));
        }
    }
}

proof fn lemma_rows_tree_float_free(rows: Seq<Row>)
    ensures
        float_free(rows_tree(rows)),
{
    let items = rows.map_values(|r: Row| row_tree(r));
    assert forall|i: int| 0 <= i < items.len() implies float_free(#[trigger] items[i]) by {
        lemma_row_tree_float_free(rows[i]);
    }
    assert(rows_tree(rows) == JsonTree::Array(items));
    assert(float_free(JsonTree::Array(items)));
}

proof fn lemma_bucket_tree_float_free(v: JsonTree, w: Window)
    requires
        float_free(v),
    ensures
        float_free(bucket_tree(v, w)),
{
    let wm = window_tree(w)->Object_0;
    assert forall|k: Seq<char>| #[trigger] wm.contains_key(k) implies float_free(wm[k]) by {}
    assert(float_free(window_tree(w)));
    let m = bucket_tree(v, w)->Object_0;
    assert forall|k: Seq<char>| #[trigger] m.contains_key(k) implies float_free(m[k]) by {}
}

/// A written result holds no number with a fraction.
pub proof fn lemma_shape_tree_float_free(s: Shape)
    ensures
        float_free(shape_tree(s)),
{
    match s {
        Shape::Scalar(_) => {},
        Shape::Rows(rows) => lemma_rows_tree_float_free(rows),
        Shape::ScalarBuckets(b) => {
            let items = pod_bucket_trees(b);
            assert forall|i: int| 0 <= i < items.len() implies float_free(#[trigger] items[i]) by {
                lemma_bucket_tree_float_free(JsonTree::Int(b[i].1), b[i].0);
            }
            assert(payload_tree(s) == JsonTree::Array(items));
            assert(float_free(JsonTree::Array(items)));
        },
        Shape::RowBuckets(b) => {
            let items = item_bucket_trees(b);
            assert forall|i: int| 0 <= i < items.len() implies float_free(#[trigger] items[i]) by {
                lemma_rows_tree_float_free(b[i].1);
                lemma_bucket_tree_float_free(rows_tree(b[i].1), b[i].0);
            }
            assert(payload_tree(s) == JsonTree::Array(items));
            assert(float_free(JsonTree::Array(items)));
        },
    }
    assert(float_free(payload_tree(s)));
    let m = shape_tree(s)->Object_0;
    assert forall|k: Seq<char>| #[trigger] m.contains_key(k) implies float_free(m[k]) by {}
}

impl KeenResult {
    /// The compact JSON text of the document `{"result": ...}`.
    pub fn to_string(&self) -> (r: String)
        requires
            self.wf(),
        ensures
            r@ == json_text(shape_tree(self@)),
    {
        let v = self.to_value();
        proof {
            lemma_shape_tree_float_free(self@);
        }
        print_text(&v)
    }
}

impl KeenError {
    /// Reads the service's error document `{"message": ..., "error_code": ...}`;
    /// both members must be text. Fails with `ParseError` otherwise.
    pub fn from_str(payload: &str) -> (r: Result<KeenError, NativeError>)
        ensures
            match json_parse(payload@) {
                Some(JsonTree::Object(m)) => match (lookup(m, message_name()), lookup(m, error_code_name())) {
                    (Some(JsonTree::Str(msg)), Some(JsonTree::Str(code))) =>
                        r is Ok && r->Ok_0.message@ == msg && r->Ok_0.error_code@ == code,
                    _ => r is Err && r->Err_0 is ParseError,
                },
                _ => r is Err && r->Err_0 is ParseError,
            },
    {
        let v = match parse_text(payload) {
            Some(v) => v,
            None => return Err(NativeError::ParseError),
        };
        let entries = match object_entries(&v) {
            Some(e) => e,
            None => return Err(NativeError::ParseError),
        };
        let ghost m = json_tree(v)->Object_0;
        proof {
            reveal_strlit("message");
            reveal_strlit("error_code");
            assert("message"@ =~= message_name());
            assert("error_code"@ =~= error_code_name());
        }
        let message = match member(&entries, "message", Ghost(m)) {
            Some(x) => match x.as_str() {
                Some(s) => s.to_owned(),
                None => return Err(NativeError::ParseError),
            },
            None => return Err(NativeError::ParseError),
        };
        let error_code = match member(&entries, "error_code", Ghost(m)) {
            Some(x) => match x.as_str() {
                Some(s) => s.to_owned(),
                None => return Err(NativeError::ParseError),
            },
            None => return Err(NativeError::ParseError),
        };
        Ok(KeenError { message, error_code })
    }
}

pub open spec fn message_name() -> Seq<char> {
    seq!['m', 'e', 's', 's', 'a', 'g', 'e']
}

pub open spec fn error_code_name() -> Seq<char> {
    seq!['e', 'r', 'r', 'o', 'r', '_', 'c', 'o', 'd', 'e']
}

} // verus!
