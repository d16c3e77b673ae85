//! The operations on results: accumulate, select, range and merge.
use vstd::prelude::*;
use crate::error::NativeError;
use crate::protocol::{
    Day, FieldValue, Item, Items, KeenResult, Payload, ResultType, Row, Shape, Window,
    StringOrI64, same_value, item_days, pod_days, window_wf, rows_of,
};
use crate::time::Instant;

verus! {

/// The sum of the counts of some rows.
pub open spec fn rows_total(rows: Seq<Row>) -> int
    decreases rows.len(),
{
    if rows.len() == 0 {
        0
    } else {
        rows_total(rows.drop_last()) + rows.last().result
    }
}

/// The sum of the values of some scalar buckets.
pub open spec fn values_total(b: Seq<(Window, int)>) -> int
    decreases b.len(),
{
    if b.len() == 0 {
        0
    } else {
        values_total(b.drop_last()) + b.last().1
    }
}

/// The sum of the magnitudes of the values of some scalar buckets.
pub open spec fn values_magnitude(b: Seq<(Window, int)>) -> int
    decreases b.len(),
{
    if b.len() == 0 {
        0
    } else {
        values_magnitude(b.drop_last()) + abs(b.last().1)
    }
}

pub open spec fn abs(n: int) -> int {
    if n < 0 { -n } else { n }
}

/// The sum of the counts of all rows of some row buckets.
pub open spec fn buckets_total(b: Seq<(Window, Seq<Row>)>) -> int
    decreases b.len(),
{
    if b.len() == 0 {
        0
    } else {
        buckets_total(b.drop_last()) + rows_total(b.last().1)
    }
}

/// A bound on every sum that the operations form from a result.
pub open spec fn magnitude(s: Shape) -> int {
    match s {
        Shape::Scalar(n) => abs(n),
        Shape::Rows(rows) => rows_total(rows),
        Shape::ScalarBuckets(b) => values_magnitude(b),
        Shape::RowBuckets(b) => buckets_total(b),
    }
}

/// Each bucket of row buckets, summed.
pub open spec fn bucket_sums(b: Seq<(Window, Seq<Row>)>) -> Seq<(Window, int)> {
    b.map_values(|p: (Window, Seq<Row>)| (p.0, rows_total(p.1)))
}

/// What `accumulate` makes of a result of shape `s` when asked for `to`;
/// `None` where the shapes do not fit.
pub open spec fn accumulated(s: Shape, to: ResultType) -> Option<Shape> {
    match (s, to) {
        (Shape::Rows(rows), ResultType::POD) => Some(Shape::Scalar(rows_total(rows))),
        (Shape::ScalarBuckets(b), ResultType::POD) => Some(Shape::Scalar(values_total(b))),
        (Shape::RowBuckets(b), ResultType::DaysPOD) => Some(Shape::ScalarBuckets(bucket_sums(b))),
        (Shape::RowBuckets(b), ResultType::POD) => Some(Shape::Scalar(buckets_total(b))),
        _ => None,
    }
}

pub proof fn lemma_rows_total_prefix(rows: Seq<Row>, i: int)
    requires
        0 <= i <= rows.len(),
    ensures
        0 <= rows_total(rows.subrange(0, i)) <= rows_total(rows),
    decreases rows.len(),
{
    if rows.len() > 0 {
        if i == rows.len() {
            assert(rows.subrange(0, i) =~= rows);
            lemma_rows_total_prefix(rows.drop_last(), i - 1);
            assert(rows.drop_last().subrange(0, i - 1) =~= rows.drop_last());
        } else {
            lemma_rows_total_prefix(rows.drop_last(), i);
            assert(rows.drop_last().subrange(0, i) =~= rows.subrange(0, i));
        }
    }
}

pub proof fn lemma_rows_total_step(rows: Seq<Row>, i: int)
    requires
        0 <= i < rows.len(),
    ensures
        rows_total(rows.subrange(0, i + 1)) == rows_total(rows.subrange(0, i)) + rows[i].result,
{
    assert(rows.subrange(0, i + 1).drop_last() =~= rows.subrange(0, i));
}

pub proof fn lemma_values_prefix(b: Seq<(Window, int)>, i: int)
    requires
        0 <= i <= b.len(),
    ensures
        abs(values_total(b.subrange(0, i))) <= values_magnitude(b.subrange(0, i)),
        values_magnitude(b.subrange(0, i)) <= values_magnitude(b),
    decreases b.len(),
{
    if b.len() > 0 {
        if i == b.len() {
            assert(b.subrange(0, i) =~= b);
            lemma_values_prefix(b.drop_last(), i - 1);
            assert(b.drop_last().subrange(0, i - 1) =~= b.drop_last());
        } else {
            lemma_values_prefix(b.drop_last(), i);
            assert(b.drop_last().subrange(0, i) =~= b.subrange(0, i));
        }
    }
}

pub proof fn lemma_buckets_prefix(b: Seq<(Window, Seq<Row>)>, i: int)
    requires
        0 <= i <= b.len(),
    ensures
        0 <= buckets_total(b.subrange(0, i)) <= buckets_total(b),
    decreases b.len(),
{
    if b.len() > 0 {
        lemma_rows_total_prefix(b.last().1, b.last().1.len() as int);
        assert(b.last().1.subrange(0, b.last().1.len() as int) =~= b.last().1);
        if i == b.len() {
            assert(b.subrange(0, i) =~= b);
            lemma_buckets_prefix(b.drop_last(), i - 1);
            assert(b.drop_last().subrange(0, i - 1) =~= b.drop_last());
        } else {
            lemma_buckets_prefix(b.drop_last(), i);
            assert(b.drop_last().subrange(0, i) =~= b.subrange(0, i));
        }
    }
}

/// Sums the counts of some rows that are known to fit `u64`.
pub(crate) fn total_of_items(items: &Items) -> (r: u64)
    requires
        rows_total(items@) <= i64::MAX,
    ensures
        r == rows_total(items@),
{
    proof {
        lemma_rows_total_prefix(items@, items@.len() as int);
        assert(items@.subrange(0, items@.len() as int) =~= items@);
    }
    sum_items(items) as u64
}

/// Whether the counts of some rows sum within `u64`.
pub(crate) fn items_within_u64(items: &Items) -> (r: bool)
    ensures
        r == (rows_total(items@) <= u64::MAX),
{
    let mut sum: u64 = 0;
    let mut i: usize = 0;
    while i < items.0.len()
        invariant
            i <= items.0@.len(),
            sum == rows_total(items@.subrange(0, i as int)),
        decreases items.0@.len() - i,
    {
        proof {
            assert(items@[i as int].result == items.0@[i as int].result);
            lemma_rows_total_step(items@, i as int);
        }
        if items.0[i].result > u64::MAX - sum {
            proof {
                lemma_rows_total_prefix(items@, i as int + 1);
            }
            return false;
        }
        sum = sum + items.0[i].result;
        i = i + 1;
    }
    assert(items@.subrange(0, i as int) =~= items@);
    true
}

/// Sums the counts of some rows.
fn sum_items(items: &Items) -> (r: i64)
    requires
        rows_total(items@) <= i64::MAX,
    ensures
        r == rows_total(items@),
{
    let mut sum: i64 = 0;
    let mut i: usize = 0;
    while i < items.0.len()
        invariant
            i <= items.0@.len(),
            rows_total(items@) <= i64::MAX,
            sum == rows_total(items@.subrange(0, i as int)),
        decreases items.0@.len() - i,
    {
        proof {
            assert(items@[i as int].result == items.0@[i as int].result);
            lemma_rows_total_step(items@, i as int);
            lemma_rows_total_prefix(items@, i as int);
            lemma_rows_total_prefix(items@, i as int + 1);
        }
        sum = sum + items.0[i].result as i64;
        i = i + 1;
    }
    assert(items@.subrange(0, i as int) =~= items@);
    sum
}

pub proof fn lemma_values_step(b: Seq<(Window, int)>, i: int)
    requires
        0 <= i < b.len(),
    ensures
        values_total(b.subrange(0, i + 1)) == values_total(b.subrange(0, i)) + b[i].1,
        values_magnitude(b.subrange(0, i + 1)) == values_magnitude(b.subrange(0, i)) + abs(b[i].1),
{
    assert(b.subrange(0, i + 1).drop_last() =~= b.subrange(0, i));
}

pub proof fn lemma_buckets_step(b: Seq<(Window, Seq<Row>)>, i: int)
    requires
        0 <= i < b.len(),
    ensures
        buckets_total(b.subrange(0, i + 1)) == buckets_total(b.subrange(0, i)) + rows_total(b[i].1),
{
    assert(b.subrange(0, i + 1).drop_last() =~= b.subrange(0, i));
}

/// One bucket's rows sum to no more than all rows of all buckets.
pub proof fn lemma_bucket_within(b: Seq<(Window, Seq<Row>)>, i: int)
    requires
        0 <= i < b.len(),
    ensures
        0 <= rows_total(b[i].1) <= buckets_total(b),
{
    lemma_buckets_step(b, i);
    lemma_buckets_prefix(b, i);
    lemma_buckets_prefix(b, i + 1);
    lemma_rows_total_prefix(b[i].1, b[i].1.len() as int);
    assert(b[i].1.subrange(0, b[i].1.len() as int) =~= b[i].1);
}

/// Sums the values of scalar buckets.
fn sum_pod_days(days: &Vec<Day<i64>>) -> (r: i64)
    requires
        values_magnitude(pod_days(days@)) <= i64::MAX,
    ensures
        r == values_total(pod_days(days@)),
{
    let ghost b = pod_days(days@);
    let mut sum: i64 = 0;
    let mut i: usize = 0;
    while i < days.len()
        invariant
            b == pod_days(days@),
            i <= days@.len(),
            values_magnitude(b) <= i64::MAX,
            sum == values_total(b.subrange(0, i as int)),
        decreases days@.len() - i,
    {
        proof {
            assert(b[i as int].1 == days@[i as int].value as int);
            lemma_values_step(b, i as int);
            lemma_values_prefix(b, i as int + 1);
        }
        sum = sum + days[i].value;
        i = i + 1;
    }
    assert(b.subrange(0, i as int) =~= b);
    sum
}

/// Sums the counts of all rows of row buckets.
fn sum_item_days(days: &Vec<Day<Items>>) -> (r: i64)
    requires
        buckets_total(item_days(days@)) <= i64::MAX,
    ensures
        r == buckets_total(item_days(days@)),
{
    let ghost b = item_days(days@);
    let mut sum: i64 = 0;
    let mut i: usize = 0;
    while i < days.len()
        invariant
            b == item_days(days@),
            i <= days@.len(),
            buckets_total(b) <= i64::MAX,
            sum == buckets_total(b.subrange(0, i as int)),
        decreases days@.len() - i,
    {
        proof {
            assert(b[i as int].1 == days@[i as int].value@);
            lemma_buckets_step(b, i as int);
            lemma_buckets_prefix(b, i as int);
            lemma_buckets_prefix(b, i as int + 1);
            lemma_bucket_within(b, i as int);
        }
        let day_sum = sum_items(&days[i].value);
        sum = sum + day_sum;
        i = i + 1;
    }
    assert(b.subrange(0, i as int) =~= b);
    sum
}

/// Sums each bucket of row buckets on its own.
fn sum_each_day(days: &Vec<Day<Items>>) -> (r: Vec<Day<i64>>)
    requires
        buckets_total(item_days(days@)) <= i64::MAX,
    ensures
        pod_days(r@) == bucket_sums(item_days(days@)),
        r@.len() == days@.len(),
        forall|i: int| 0 <= i < days@.len() ==> (#[trigger] r@[i]).timeframe@ == days@[i].timeframe@,
{
    let ghost b = item_days(days@);
    let mut out: Vec<Day<i64>> = Vec::new();
    let mut i: usize = 0;
    while i < days.len()
        invariant
            b == item_days(days@),
            i <= days@.len(),
            buckets_total(b) <= i64::MAX,
            pod_days(out@) =~= bucket_sums(b).subrange(0, i as int),
            out@.len() == i,
            forall|j: int| 0 <= j < i ==> (#[trigger] out@[j]).timeframe@ == days@[j].timeframe@,
        decreases days@.len() - i,
    {
        proof {
            assert(b[i as int].1 == days@[i as int].value@);
            lemma_bucket_within(b, i as int);
        }
        let day_sum = sum_items(&days[i].value);
        let ghost before = out@;
        out.push(Day { value: day_sum, timeframe: days[i].timeframe.duplicate() });
        proof {
            assert(bucket_sums(b)[i as int] == (b[i as int].0, rows_total(b[i as int].1)));
            assert(pod_days(out@) =~= pod_days(before).push(bucket_sums(b)[i as int]));
            assert(bucket_sums(b).subrange(0, i as int + 1) =~= bucket_sums(b).subrange(0, i as int).push(bucket_sums(b)[i as int]));
        }
        i = i + 1;
    }
    assert(pod_days(out@) =~= bucket_sums(b));
    out
}

pub open spec fn days_wf<V>(days: Seq<Day<V>>) -> bool {
    forall|i: int| 0 <= i < days.len() ==> window_wf(#[trigger] days[i].timeframe@)
}

impl KeenResult {
    /// Collapses rows into sums: a row set or scalar buckets into one scalar,
    /// row buckets into one scalar or into a scalar per bucket.
    /// Fails with `InvalidShape` on any other pair of shapes.
    pub fn accumulate(self, to: ResultType) -> (r: Result<KeenResult, NativeError>)
        requires
            self.wf(),
            magnitude(self@) <= i64::MAX,
        ensures
            match r {
                Ok(v) => accumulated(self@, to) == Some(v@) && v.wf(),
                Err(e) => accumulated(self@, to) is None && e is InvalidShape,
            },
    {
        match (&self.result, to) {
            (Payload::Items(items), ResultType::POD) => {
                Ok(KeenResult { result: Payload::Pod(sum_items(items)) })
            },
            (Payload::DaysPod(days), ResultType::POD) => {
                proof {
                    lemma_values_prefix(pod_days(days@), pod_days(days@).len() as int);
                    assert(pod_days(days@).subrange(0, pod_days(days@).len() as int) =~= pod_days(days@));
                }
                Ok(KeenResult { result: Payload::Pod(sum_pod_days(days)) })
            },
            (Payload::DaysItems(days), ResultType::DaysPOD) => {
                let sums = sum_each_day(days);
                proof {
                    assert forall|i: int| 0 <= i < sums@.len() implies window_wf(#[trigger] sums@[i].timeframe@) by {
                        assert(window_wf(days@[i].timeframe@));
                    }
                }
                Ok(KeenResult { result: Payload::DaysPod(sums) })
            },
            (Payload::DaysItems(days), ResultType::POD) => {
                Ok(KeenResult { result: Payload::Pod(sum_item_days(days)) })
            },
            _ => Err(NativeError::InvalidShape),
        }
    }
}

/// The row carries `v` (or an equal value) under the name `f`.
pub open spec fn row_matches(row: Row, f: Seq<char>, v: FieldValue) -> bool {
    row.fields.contains_key(f) && same_value(row.fields[f], v)
}

/// The row without the field `f`.
pub open spec fn stripped(row: Row, f: Seq<char>) -> Row {
    Row { result: row.result, fields: row.fields.remove(f) }
}

/// The rows that carry `v` under `f`, in order, without the field `f`.
pub open spec fn matching_rows(rows: Seq<Row>, f: Seq<char>, v: FieldValue) -> Seq<Row>
    decreases rows.len(),
{
    if rows.len() == 0 {
        Seq::empty()
    } else {
        let init = matching_rows(rows.drop_last(), f, v);
        if row_matches(rows.last(), f, v) {
            init.push(stripped(rows.last(), f))
        } else {
            init
        }
    }
}

/// The count of the first row that carries `v` under `f`.
pub open spec fn first_match(rows: Seq<Row>, f: Seq<char>, v: FieldValue) -> Option<nat>
    decreases rows.len(),
{
    if rows.len() == 0 {
        None
    } else {
        match first_match(rows.drop_last(), f, v) {
            Some(n) => Some(n),
            None => if row_matches(rows.last(), f, v) {
                Some(rows.last().result)
            } else {
                None
            },
        }
    }
}

/// The count of the first matching row, or 0 where no row matches.
pub open spec fn first_count(rows: Seq<Row>, f: Seq<char>, v: FieldValue) -> int {
    match first_match(rows, f, v) {
        Some(n) => n as int,
        None => 0,
    }
}

/// The first matching count of each bucket.
pub open spec fn first_counts(b: Seq<(Window, Seq<Row>)>, f: Seq<char>, v: FieldValue) -> Seq<(Window, int)> {
    b.map_values(|p: (Window, Seq<Row>)| (p.0, first_count(p.1, f, v)))
}

/// Each bucket's rows that match.
pub open spec fn matching_buckets(b: Seq<(Window, Seq<Row>)>, f: Seq<char>, v: FieldValue) -> Seq<(Window, Seq<Row>)> {
    b.map_values(|p: (Window, Seq<Row>)| (p.0, matching_rows(p.1, f, v)))
}

/// What `select` makes of a result of shape `s` when asked for `to`;
/// `None` where the shapes do not fit.
pub open spec fn selected(s: Shape, f: Seq<char>, v: FieldValue, to: ResultType) -> Option<Shape> {
    match (s, to) {
        (Shape::Rows(rows), ResultType::Items) => Some(Shape::Rows(matching_rows(rows, f, v))),
        (Shape::Rows(rows), ResultType::POD) => Some(Shape::Scalar(first_count(rows, f, v))),
        (Shape::RowBuckets(b), ResultType::DaysItems) => Some(Shape::RowBuckets(matching_buckets(b, f, v))),
        (Shape::RowBuckets(b), ResultType::DaysPOD) => Some(Shape::ScalarBuckets(first_counts(b, f, v))),
        (Shape::RowBuckets(b), ResultType::POD) => Some(Shape::Scalar(values_total(first_counts(b, f, v)))),
        _ => None,
    }
}

pub proof fn lemma_first_within(rows: Seq<Row>, f: Seq<char>, v: FieldValue)
    ensures
        0 <= first_count(rows, f, v) <= rows_total(rows),
    decreases rows.len(),
{
    if rows.len() > 0 {
        lemma_first_within(rows.drop_last(), f, v);
        lemma_rows_total_prefix(rows.drop_last(), rows.len() - 1);
        assert(rows.drop_last().subrange(0, rows.len() - 1) =~= rows.drop_last());
    }
}

pub proof fn lemma_first_counts_within(b: Seq<(Window, Seq<Row>)>, f: Seq<char>, v: FieldValue)
    ensures
        0 <= values_total(first_counts(b, f, v)) <= buckets_total(b),
        values_magnitude(first_counts(b, f, v)) == values_total(first_counts(b, f, v)),
    decreases b.len(),
{
    if b.len() > 0 {
        lemma_first_counts_within(b.drop_last(), f, v);
        lemma_first_within(b.last().1, f, v);
        assert(first_counts(b, f, v).drop_last() =~= first_counts(b.drop_last(), f, v));
    }
}

fn item_matches(item: &Item, key: &str, value: &StringOrI64) -> (r: bool)
    requires
        item.fields.wf(),
    ensures
        r == row_matches(item@, key@, value@),
{
    match item.fields.get(key) {
        Some(x) => x.same_as(value),
        None => false,
    }
}

/// The rows that match, without the field `key`.
fn filter_items(items: &Items, key: &str, value: &StringOrI64) -> (r: Items)
    requires
        items.wf(),
    ensures
        r@ == matching_rows(items@, key@, value@),
        r.wf(),
{
    let mut out: Vec<Item> = Vec::new();
    let mut i: usize = 0;
    while i < items.0.len()
        invariant
            items.wf(),
            i <= items.0@.len(),
            rows_of(out@) == matching_rows(items@.subrange(0, i as int), key@, value@),
            forall|j: int| 0 <= j < out@.len() ==> #[trigger] out@[j].wf(),
        decreases items.0@.len() - i,
    {
        let ghost sub = items@.subrange(0, i as int + 1);
        proof {
            assert(sub.drop_last() =~= items@.subrange(0, i as int));
            assert(sub.last() == items.0@[i as int]@);
            assert(items.0@[i as int].wf());
        }
        if item_matches(&items.0[i], key, value) {
            let mut kept = items.0[i].duplicate();
            kept.fields.remove(key);
            let ghost before = out@;
            out.push(kept);
            proof {
                assert(rows_of(out@) =~= rows_of(before).push(kept@));
            }
        }
        i = i + 1;
    }
    assert(items@.subrange(0, i as int) =~= items@);
    Items(out)
}

/// The count of the first row that matches, or 0.
fn first_item_count(items: &Items, key: &str, value: &StringOrI64) -> (r: u64)
    requires
        items.wf(),
    ensures
        r == first_count(items@, key@, value@),
{
    let mut found: Option<u64> = None;
    let mut i: usize = 0;
    while i < items.0.len()
        invariant
            items.wf(),
            i <= items.0@.len(),
            match found {
                Some(n) => first_match(items@.subrange(0, i as int), key@, value@) == Some(n as nat),
                None => first_match(items@.subrange(0, i as int), key@, value@) is None,
            },
        decreases items.0@.len() - i,
    {
        let ghost sub = items@.subrange(0, i as int + 1);
        proof {
            assert(sub.drop_last() =~= items@.subrange(0, i as int));
            assert(sub.last() == items.0@[i as int]@);
            assert(items.0@[i as int].wf());
        }
        if found.is_none() && item_matches(&items.0[i], key, value) {
            found = Some(items.0[i].result);
        }
        i = i + 1;
    }
    assert(items@.subrange(0, i as int) =~= items@);
    match found {
        Some(n) => n,
        None => 0,
    }
}

pub open spec fn item_days_wf(days: Seq<Day<Items>>) -> bool {
    forall|i: int| 0 <= i < days.len() ==> window_wf(#[trigger] days[i].timeframe@) && days[i].value.wf()
}

/// Keeps the matching rows of each bucket.
fn filter_days(days: &Vec<Day<Items>>, key: &str, value: &StringOrI64) -> (r: Vec<Day<Items>>)
    requires
        item_days_wf(days@),
    ensures
        item_days(r@) == matching_buckets(item_days(days@), key@, value@),
        item_days_wf(r@),
{
    let ghost b = item_days(days@);
    let mut out: Vec<Day<Items>> = Vec::new();
    let mut i: usize = 0;
    while i < days.len()
        invariant
            b == item_days(days@),
            item_days_wf(days@),
            i <= days@.len(),
            item_days(out@) =~= matching_buckets(b, key@, value@).subrange(0, i as int),
            item_days_wf(out@),
        decreases days@.len() - i,
    {
        assert(window_wf(days@[i as int].timeframe@) && days@[i as int].value.wf());
        let kept = filter_items(&days[i].value, key, value);
        let ghost before = out@;
        out.push(Day { value: kept, timeframe: days[i].timeframe.duplicate() });
        proof {
            assert(item_days(out@) =~= item_days(before).push(matching_buckets(b, key@, value@)[i as int]));
            assert(matching_buckets(b, key@, value@).subrange(0, i as int + 1) =~= matching_buckets(b, key@, value@).subrange(0, i as int).push(matching_buckets(b, key@, value@)[i as int]));
        }
        i = i + 1;
    }
    assert(item_days(out@) =~= matching_buckets(b, key@, value@));
    out
}

/// The first matching count of each bucket.
fn first_each_day(days: &Vec<Day<Items>>, key: &str, value: &StringOrI64) -> (r: Vec<Day<i64>>)
    requires
        item_days_wf(days@),
        buckets_total(item_days(days@)) <= i64::MAX,
    ensures
        pod_days(r@) == first_counts(item_days(days@), key@, value@),
        days_wf(r@),
{
    let ghost b = item_days(days@);
    let mut out: Vec<Day<i64>> = Vec::new();
    let mut i: usize = 0;
    while i < days.len()
        invariant
            b == item_days(days@),
            item_days_wf(days@),
            buckets_total(b) <= i64::MAX,
            i <= days@.len(),
            pod_days(out@) =~= first_counts(b, key@, value@).subrange(0, i as int),
            days_wf(out@),
        decreases days@.len() - i,
    {
        assert(window_wf(days@[i as int].timeframe@) && days@[i as int].value.wf());
        proof {
            assert(b[i as int].1 == days@[i as int].value@);
            lemma_bucket_within(b, i as int);
            lemma_first_within(b[i as int].1, key@, value@);
        }
        let n = first_item_count(&days[i].value, key, value);
        let ghost before = out@;
        out.push(Day { value: n as i64, timeframe: days[i].timeframe.duplicate() });
        proof {
            assert(pod_days(out@) =~= pod_days(before).push(first_counts(b, key@, value@)[i as int]));
            assert(first_counts(b, key@, value@).subrange(0, i as int + 1) =~= first_counts(b, key@, value@).subrange(0, i as int).push(first_counts(b, key@, value@)[i as int]));
        }
        i = i + 1;
    }
    assert(pod_days(out@) =~= first_counts(b, key@, value@));
    out
}

impl KeenResult {
    /// Filters rows by `field == value` (an integer equals its decimal text).
    /// A row set becomes the matching rows without that field, or the count of
    /// the first matching row; row buckets become the matching rows of each
    /// bucket, the first matching count of each bucket, or the sum of those.
    /// Fails with `InvalidShape` on any other pair of shapes.
    pub fn select(self, predicate: (&str, StringOrI64), to: ResultType) -> (r: Result<KeenResult, NativeError>)
        requires
            self.wf(),
            magnitude(self@) <= i64::MAX,
        ensures
            match r {
                Ok(v) => selected(self@, predicate.0@, predicate.1@, to) == Some(v@) && v.wf(),
                Err(e) => selected(self@, predicate.0@, predicate.1@, to) is None && e is InvalidShape,
            },
    {
        let (key, value) = predicate;
        match (&self.result, to) {
            (Payload::Items(items), ResultType::Items) => {
                Ok(KeenResult { result: Payload::Items(filter_items(items, key, &value)) })
            },
            (Payload::Items(items), ResultType::POD) => {
                proof {
                    lemma_first_within(items@, key@, value@);
                }
                let n = first_item_count(items, key, &value);
                Ok(KeenResult { result: Payload::Pod(n as i64) })
            },
            (Payload::DaysItems(days), ResultType::DaysItems) => {
                Ok(KeenResult { result: Payload::DaysItems(filter_days(days, key, &value)) })
            },
            (Payload::DaysItems(days), ResultType::DaysPOD) => {
                Ok(KeenResult { result: Payload::DaysPod(first_each_day(days, key, &value)) })
            },
            (Payload::DaysItems(days), ResultType::POD) => {
                let firsts = first_each_day(days, key, &value);
                proof {
                    lemma_first_counts_within(item_days(days@), key@, value@);
                }
                Ok(KeenResult { result: Payload::Pod(sum_pod_days(&firsts)) })
            },
            _ => Err(NativeError::InvalidShape),
        }
    }
}

/// The window lies within `[from, to]`, both ends included.
pub open spec fn in_window(w: Window, from: Instant, to: Instant) -> bool {
    from.not_after(w.from) && w.to.not_after(to)
}

/// The buckets whose windows lie within `[from, to]`, in order.
pub open spec fn within<V>(b: Seq<(Window, V)>, from: Instant, to: Instant) -> Seq<(Window, V)>
    decreases b.len(),
{
    if b.len() == 0 {
        Seq::empty()
    } else {
        let init = within(b.drop_last(), from, to);
        if in_window(b.last().0, from, to) {
            init.push(b.last())
        } else {
            init
        }
    }
}

/// What `range` makes of a result of shape `s`; `None` for a shape without buckets.
pub open spec fn ranged(s: Shape, from: Instant, to: Instant) -> Option<Shape> {
    match s {
        Shape::ScalarBuckets(b) => Some(Shape::ScalarBuckets(within(b, from, to))),
        Shape::RowBuckets(b) => Some(Shape::RowBuckets(within(b, from, to))),
        _ => None,
    }
}

fn pod_days_within(days: &Vec<Day<i64>>, from: Instant, to: Instant) -> (r: Vec<Day<i64>>)
    requires
        days_wf(days@),
    ensures
        pod_days(r@) == within(pod_days(days@), from, to),
        days_wf(r@),
{
    let ghost b = pod_days(days@);
    let mut out: Vec<Day<i64>> = Vec::new();
    let mut i: usize = 0;
    while i < days.len()
        invariant
            b == pod_days(days@),
            days_wf(days@),
            i <= days@.len(),
            pod_days(out@) == within(b.subrange(0, i as int), from, to),
            days_wf(out@),
        decreases days@.len() - i,
    {
        let ghost sub = b.subrange(0, i as int + 1);
        proof {
            assert(sub.drop_last() =~= b.subrange(0, i as int));
            assert(sub.last() == b[i as int]);
        }
        let tf = &days[i].timeframe;
        if from.le(&tf.start_at) && tf.end_at.le(&to) {
            let ghost before = out@;
            assert(window_wf(days@[i as int].timeframe@));
            out.push(Day { value: days[i].value, timeframe: tf.duplicate() });
            assert(pod_days(out@) =~= pod_days(before).push(b[i as int]));
        }
        i = i + 1;
    }
    assert(b.subrange(0, i as int) =~= b);
    out
}

fn item_days_within(days: &Vec<Day<Items>>, from: Instant, to: Instant) -> (r: Vec<Day<Items>>)
    requires
        item_days_wf(days@),
    ensures
        item_days(r@) == within(item_days(days@), from, to),
        item_days_wf(r@),
{
    let ghost b = item_days(days@);
    let mut out: Vec<Day<Items>> = Vec::new();
    let mut i: usize = 0;
    while i < days.len()
        invariant
            b == item_days(days@),
            item_days_wf(days@),
            i <= days@.len(),
            item_days(out@) == within(b.subrange(0, i as int), from, to),
            item_days_wf(out@),
        decreases days@.len() - i,
    {
        let ghost sub = b.subrange(0, i as int + 1);
        proof {
            assert(sub.drop_last() =~= b.subrange(0, i as int));
            assert(sub.last() == b[i as int]);
        }
        let tf = &days[i].timeframe;
        if from.le(&tf.start_at) && tf.end_at.le(&to) {
            let ghost before = out@;
            assert(window_wf(days@[i as int].timeframe@) && days@[i as int].value.wf());
            out.push(Day { value: days[i].value.duplicate(), timeframe: tf.duplicate() });
            assert(item_days(out@) =~= item_days(before).push(b[i as int]));
        }
        i = i + 1;
    }
    assert(b.subrange(0, i as int) =~= b);
    out
}

impl KeenResult {
    /// Keeps the buckets whose windows lie within `[from, to]`, in order.
    /// Fails with `InvalidShape` on a scalar or a row set.
    pub fn range(self, from: Instant, to: Instant) -> (r: Result<KeenResult, NativeError>)
        requires
            self.wf(),
        ensures
            match r {
                Ok(v) => ranged(self@, from, to) == Some(v@) && v.wf(),
                Err(e) => ranged(self@, from, to) is None && e is InvalidShape,
            },
    {
        match &self.result {
            Payload::DaysPod(days) => Ok(KeenResult { result: Payload::DaysPod(pod_days_within(days, from, to)) }),
            Payload::DaysItems(days) => {
                assert(item_days_wf(days@));
                Ok(KeenResult { result: Payload::DaysItems(item_days_within(days, from, to)) })
            },
            _ => Err(NativeError::InvalidShape),
        }
    }
}

/// `s` with `x` placed after every bucket that starts no later than it and
/// before the rest; on sorted `s` this keeps the order and the ties stable.
pub open spec fn insert_by_start(s: Seq<(Window, int)>, x: (Window, int)) -> Seq<(Window, int)>
    decreases s.len(),
{
    if s.len() == 0 {
        seq![x]
    } else if s.last().0.from.not_after(x.0.from) {
        s.push(x)
    } else {
        insert_by_start(s.drop_last(), x).push(s.last())
    }
}

/// The buckets sorted by the start of their windows, equal starts kept in order.
pub open spec fn sort_by_start(s: Seq<(Window, int)>) -> Seq<(Window, int)>
    decreases s.len(),
{
    if s.len() == 0 {
        s
    } else {
        insert_by_start(sort_by_start(s.drop_last()), s.last())
    }
}

/// What `merge` makes of two results; `None` unless both are scalar buckets.
pub open spec fn merged(a: Shape, b: Shape) -> Option<Shape> {
    match (a, b) {
        (Shape::ScalarBuckets(x), Shape::ScalarBuckets(y)) => Some(Shape::ScalarBuckets(sort_by_start(x + y))),
        _ => None,
    }
}

proof fn lemma_insert_unfold(pre: Seq<(Window, int)>, x: (Window, int))
    requires
        pre.len() > 0,
    ensures
        pre.last().0.from.not_after(x.0.from) ==> insert_by_start(pre, x) == pre.push(x),
        !pre.last().0.from.not_after(x.0.from) ==> insert_by_start(pre, x) == insert_by_start(pre.drop_last(), x).push(pre.last()),
{
}

fn insert_day(out: &mut Vec<Day<i64>>, d: Day<i64>)
    requires
        days_wf(old(out)@),
        window_wf(d.timeframe@),
    ensures
        pod_days(final(out)@) == insert_by_start(pod_days(old(out)@), (d.timeframe@, d.value as int)),
        days_wf(final(out)@),
{
    let ghost s = pod_days(out@);
    let ghost x = (d.timeframe@, d.value as int);
    let mut j: usize = out.len();
    let mut done = false;
    assert(s.subrange(0, s.len() as int) =~= s);
    assert(insert_by_start(s, x) + s.subrange(s.len() as int, s.len() as int) =~= insert_by_start(s, x));
    while !done
        invariant
            s == pod_days(out@),
            x == (d.timeframe@, d.value as int),
            j <= out@.len(),
            insert_by_start(s, x) == insert_by_start(s.subrange(0, j as int), x) + s.subrange(j as int, s.len() as int),
            done ==> insert_by_start(s.subrange(0, j as int), x) == s.subrange(0, j as int).push(x),
        decreases j + (if done { 0int } else { 1int }),
    {
        if j == 0 {
            done = true;
            assert(s.subrange(0, 0) =~= Seq::<(Window, int)>::empty());
            assert(insert_by_start(s.subrange(0, 0), x) =~= seq![x]);
        } else if out[j - 1].timeframe.start_at.le(&d.timeframe.start_at) {
            done = true;
            assert(s[j - 1].0.from == out@[j - 1].timeframe.start_at);
            assert(s.subrange(0, j as int).last() == s[j - 1]);
            proof {
                lemma_insert_unfold(s.subrange(0, j as int), x);
            }
        } else {
            proof {
                assert(s[j - 1].0.from == out@[j - 1].timeframe.start_at);
                let pre = s.subrange(0, j as int);
                assert(pre.last() == s[j - 1]);
                assert(pre.drop_last() =~= s.subrange(0, j - 1));
                lemma_insert_unfold(pre, x);
                assert(insert_by_start(pre, x) == insert_by_start(s.subrange(0, j - 1), x).push(s[j - 1]));
                assert(insert_by_start(s.subrange(0, j - 1), x).push(s[j - 1]) + s.subrange(j as int, s.len() as int)
                    =~= insert_by_start(s.subrange(0, j - 1), x) + s.subrange(j - 1, s.len() as int));
            }
            j = j - 1;
        }
    }
    let ghost before = out@;
    out.insert(j, d);
    proof {
        assert(pod_days(out@) =~= s.subrange(0, j as int).push(x) + s.subrange(j as int, s.len() as int));
        assert forall|i: int| 0 <= i < out@.len() implies window_wf(#[trigger] out@[i].timeframe@) by {
            if i < j {
                assert(out@[i] == before[i]);
            } else if i > j {
                assert(out@[i] == before[i - 1]);
            }
        }
    }
}

/// Inserts the buckets of `src` one after the other into `out`, which holds
/// the sorted `prefix`.
fn insert_all(out: &mut Vec<Day<i64>>, src: &Vec<Day<i64>>, prefix: Ghost<Seq<(Window, int)>>)
    requires
        pod_days(old(out)@) == sort_by_start(prefix@),
        days_wf(old(out)@),
        days_wf(src@),
    ensures
        pod_days(final(out)@) == sort_by_start(prefix@ + pod_days(src@)),
        days_wf(final(out)@),
{
    let ghost all = prefix@ + pod_days(src@);
    let mut i: usize = 0;
    assert(all.subrange(0, prefix@.len() as int) =~= prefix@);
    while i < src.len()
        invariant
            all == prefix@ + pod_days(src@),
            days_wf(src@),
            i <= src@.len(),
            pod_days(out@) == sort_by_start(all.subrange(0, prefix@.len() + i)),
            days_wf(out@),
        decreases src@.len() - i,
    {
        assert(window_wf(src@[i as int].timeframe@));
        let d = Day { value: src[i].value, timeframe: src[i].timeframe.duplicate() };
        proof {
            let sub = all.subrange(0, prefix@.len() + i + 1);
            assert(sub.drop_last() =~= all.subrange(0, prefix@.len() + i));
            assert(sub.last() == (d.timeframe@, d.value as int));
        }
        insert_day(out, d);
        i = i + 1;
    }
    assert(all.subrange(0, prefix@.len() + i) =~= all);
}

impl KeenResult {
    /// Puts the buckets of two scalar-bucket results together, sorted by the
    /// start of their windows; buckets with equal starts keep their order,
    /// those of `self` first. No values are added up.
    /// Fails with `InvalidShape` unless both are scalar buckets.
    pub fn merge(self, rhs: KeenResult) -> (r: Result<KeenResult, NativeError>)
        requires
            self.wf(),
            rhs.wf(),
        ensures
            match r {
                Ok(v) => merged(self@, rhs@) == Some(v@) && v.wf(),
                Err(e) => merged(self@, rhs@) is None && e is InvalidShape,
            },
    {
        match (self.result, rhs.result) {
            (Payload::DaysPod(a), Payload::DaysPod(b)) => {
                let mut out: Vec<Day<i64>> = Vec::new();
                assert(pod_days(out@) =~= Seq::<(Window, int)>::empty());
                assert(Seq::<(Window, int)>::empty() + pod_days(a@) =~= pod_days(a@));
                insert_all(&mut out, &a, Ghost(Seq::empty()));
                insert_all(&mut out, &b, Ghost(pod_days(a@)));
                Ok(KeenResult { result: Payload::DaysPod(out) })
            },
            _ => Err(NativeError::InvalidShape),
        }
    }
}

} // verus!
