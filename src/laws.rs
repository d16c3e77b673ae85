//! Properties that hold across the operations on results.
use vstd::prelude::*;
use crate::algebra::{
    accumulated, in_window, insert_by_start, matching_rows, merged, ranged,
    row_matches, rows_total, selected, sort_by_start, values_magnitude, values_total, within, abs,
};
use crate::protocol::{FieldValue, ResultType, Row, Shape, Window, decimal, same_value};
use crate::time::Instant;
use crate::codec::{
    bucket_parts, bucket_tree, decode_shape, end_name, field_of, field_tree, item_bucket_trees,
    lookup, pod_bucket_trees, row_buckets_of, row_of, row_tree, rows_of_trees, rows_tree,
    scalar_buckets_of, shape_tree, start_name, timeframe_name, value_name, window_of, window_tree,
};
use crate::json::{JsonTree, is_i64, is_u64};
use crate::key::{CacheQuery, KeySide, cache_key_of};
use crate::trim::{
    blocks, head_len, insert_desc, key_of, keys_of, lemma_rows_total_split, lemma_sort_desc_total,
    others_row, part, sort_desc, trim_block, trimmed,
};
use crate::protocol::{KeenResult, Payload, StringOrI64, item_days, pod_days, result_name, shape_type, window_wf};

verus! {

/// The sum of the counts of the rows that carry `v` under `f`.
pub open spec fn matching_total(rows: Seq<Row>, f: Seq<char>, v: FieldValue) -> int
    decreases rows.len(),
{
    if rows.len() == 0 {
        0
    } else {
        matching_total(rows.drop_last(), f, v) + if row_matches(rows.last(), f, v) {
            rows.last().result as int
        } else {
            0
        }
    }
}

proof fn lemma_matching_rows_total(rows: Seq<Row>, f: Seq<char>, v: FieldValue)
    ensures
        rows_total(matching_rows(rows, f, v)) == matching_total(rows, f, v),
    decreases rows.len(),
{
    if rows.len() > 0 {
        lemma_matching_rows_total(rows.drop_last(), f, v);
        let init = matching_rows(rows.drop_last(), f, v);
        if row_matches(rows.last(), f, v) {
            assert(init.push(crate::algebra::stripped(rows.last(), f)).drop_last() =~= init);
        }
    }
}

/// Selecting a row set down to the rows that carry `v` under `f`, then
/// accumulating, gives the sum of the counts of exactly those rows.
pub proof fn select_then_accumulate(rows: Seq<Row>, f: Seq<char>, v: FieldValue)
    ensures
        selected(Shape::Rows(rows), f, v, ResultType::Items) is Some,
        accumulated(selected(Shape::Rows(rows), f, v, ResultType::Items)->Some_0, ResultType::POD)
            == Some(Shape::Scalar(matching_total(rows, f, v))),
{
    lemma_matching_rows_total(rows, f, v);
}

proof fn lemma_within_all<V>(b: Seq<(Window, V)>, from: Instant, to: Instant)
    requires
        forall|i: int| 0 <= i < b.len() ==> in_window(#[trigger] b[i].0, from, to),
    ensures
        within(b, from, to) == b,
    decreases b.len(),
{
    if b.len() > 0 {
        lemma_within_all(b.drop_last(), from, to);
        assert(b.drop_last().push(b.last()) =~= b);
    }
}

/// Restricting buckets whose windows all lie within `[from, to]` to that
/// range gives them back unchanged.
pub proof fn range_keeps_inner_buckets(s: Shape, from: Instant, to: Instant)
    requires
        match s {
            Shape::ScalarBuckets(b) => forall|i: int| 0 <= i < b.len() ==> in_window(#[trigger] b[i].0, from, to),
            Shape::RowBuckets(b) => forall|i: int| 0 <= i < b.len() ==> in_window(#[trigger] b[i].0, from, to),
            _ => false,
        },
    ensures
        ranged(s, from, to) == Some(s),
{
    match s {
        Shape::ScalarBuckets(b) => lemma_within_all(b, from, to),
        Shape::RowBuckets(b) => lemma_within_all(b, from, to),
        _ => {},
    }
}

proof fn lemma_insert_sums(s: Seq<(Window, int)>, x: (Window, int))
    ensures
        values_total(insert_by_start(s, x)) == values_total(s) + x.1,
        values_magnitude(insert_by_start(s, x)) == values_magnitude(s) + abs(x.1),
    decreases s.len(),
{
    if s.len() == 0 {
        assert(seq![x].drop_last() =~= Seq::<(Window, int)>::empty());
        assert(seq![x].last() == x);
        assert(values_total(seq![x]) == values_total(Seq::<(Window, int)>::empty()) + x.1);
        assert(values_magnitude(seq![x]) == values_magnitude(Seq::<(Window, int)>::empty()) + abs(x.1));
    } else if s.last().0.from.not_after(x.0.from) {
        assert(s.push(x).drop_last() =~= s);
        assert(s.push(x).last() == x);
    } else {
        lemma_insert_sums(s.drop_last(), x);
        let t = insert_by_start(s.drop_last(), x);
        assert(t.push(s.last()).drop_last() =~= t);
        assert(t.push(s.last()).last() == s.last());
        assert(insert_by_start(s, x) == t.push(s.last()));
    }
}

proof fn lemma_sort_sums(s: Seq<(Window, int)>)
    ensures
        values_total(sort_by_start(s)) == values_total(s),
        values_magnitude(sort_by_start(s)) == values_magnitude(s),
    decreases s.len(),
{
    if s.len() > 0 {
        lemma_sort_sums(s.drop_last());
        lemma_insert_sums(sort_by_start(s.drop_last()), s.last());
    }
}

proof fn lemma_concat_sums(x: Seq<(Window, int)>, y: Seq<(Window, int)>)
    ensures
        values_total(x + y) == values_total(x) + values_total(y),
        values_magnitude(x + y) == values_magnitude(x) + values_magnitude(y),
    decreases y.len(),
{
    if y.len() == 0 {
        assert(x + y =~= x);
    } else {
        lemma_concat_sums(x, y.drop_last());
        assert((x + y).drop_last() =~= x + y.drop_last());
        assert((x + y).last() == y.last());
    }
}

/// Accumulating scalar buckets is associative: the sum over two sequences
/// put one after the other, or merged by start, is the sum of the sums of each.
pub proof fn accumulate_is_associative(x: Seq<(Window, int)>, y: Seq<(Window, int)>)
    ensures
        accumulated(Shape::ScalarBuckets(x + y), ResultType::POD)
            == Some(Shape::Scalar(values_total(x) + values_total(y))),
        merged(Shape::ScalarBuckets(x), Shape::ScalarBuckets(y)) is Some,
        accumulated(merged(Shape::ScalarBuckets(x), Shape::ScalarBuckets(y))->Some_0, ResultType::POD)
            == Some(Shape::Scalar(values_total(x) + values_total(y))),
        values_magnitude(sort_by_start(x + y)) == values_magnitude(x) + values_magnitude(y),
{
    lemma_concat_sums(x, y);
    lemma_sort_sums(x + y);
}

/// An integer and the text of its decimal digits are equal grouping values,
/// whichever side each stands on.
pub proof fn integer_equals_its_decimal(n: i64)
    ensures
        same_value(FieldValue::Int(n as int), FieldValue::Text(decimal(n as int))),
        same_value(FieldValue::Text(decimal(n as int)), FieldValue::Int(n as int)),
{
}

/// A grouping value that JSON carries unchanged: text, or an integer of `i64`.
pub open spec fn field_valid(v: FieldValue) -> bool {
    match v {
        FieldValue::Int(n) => is_i64(n),
        FieldValue::Text(_) => true,
    }
}

pub open spec fn row_valid(r: Row) -> bool {
    &&& r.result != 0
    &&& is_u64(r.result as int)
    &&& !r.fields.contains_key(result_name())
    &&& forall|k: Seq<char>| #[trigger] r.fields.contains_key(k) ==> field_valid(r.fields[k])
}

pub open spec fn rows_valid(rows: Seq<Row>) -> bool {
    forall|i: int| 0 <= i < rows.len() ==> row_valid(#[trigger] rows[i])
}

/// A result whose every part JSON carries unchanged.
pub open spec fn shape_valid(s: Shape) -> bool {
    match s {
        Shape::Scalar(n) => is_i64(n),
        Shape::Rows(rows) => rows_valid(rows),
        Shape::ScalarBuckets(b) => forall|i: int| 0 <= i < b.len() ==> window_wf(#[trigger] b[i].0) && is_i64(b[i].1),
        Shape::RowBuckets(b) => forall|i: int| 0 <= i < b.len() ==> #[trigger] row_bucket_valid(b[i]),
    }
}

pub open spec fn row_bucket_valid(p: (Window, Seq<Row>)) -> bool {
    window_wf(p.0) && rows_valid(p.1)
}

proof fn lemma_row_round_trip(r: Row)
    requires
        row_valid(r),
    ensures
        row_of(row_tree(r)) == Some(r),
{
    let m = r.fields.map_values(|v: FieldValue| field_tree(v)).insert(result_name(), JsonTree::Int(r.result as int));
    assert(lookup(m, result_name()) == Some(JsonTree::Int(r.result as int)));
    let back = m.remove(result_name()).map_values(|x: JsonTree| field_of(x));
    assert forall|k: Seq<char>| #[trigger] back.contains_key(k) <==> r.fields.contains_key(k) by {}
    assert forall|k: Seq<char>| #[trigger] back.contains_key(k) implies back[k] == r.fields[k] by {
        assert(field_valid(r.fields[k]));
        assert(m[k] == field_tree(r.fields[k]));
    }
    assert(back =~= r.fields);
}

proof fn lemma_rows_round_trip(rows: Seq<Row>)
    requires
        rows_valid(rows),
    ensures
        rows_of_trees(rows.map_values(|r: Row| row_tree(r))) == Some(rows),
    decreases rows.len(),
{
    if rows.len() > 0 {
        let t = rows.map_values(|r: Row| row_tree(r));
        assert(t.drop_last() =~= rows.drop_last().map_values(|r: Row| row_tree(r)));
        assert(rows_valid(rows.drop_last())) by {
            assert forall|i: int| 0 <= i < rows.drop_last().len() implies row_valid(#[trigger] rows.drop_last()[i]) by {
                assert(rows.drop_last()[i] == rows[i]);
            }
        }
        lemma_rows_round_trip(rows.drop_last());
        assert(row_valid(rows[rows.len() - 1]));
        lemma_row_round_trip(rows.last());
        assert(rows.drop_last().push(rows.last()) =~= rows);
    } else {
        assert(rows.map_values(|r: Row| row_tree(r)) =~= Seq::<JsonTree>::empty());
        assert(rows =~= Seq::<Row>::empty());
    }
}

proof fn lemma_window_round_trip(w: Window)
    requires
        window_wf(w),
    ensures
        window_of(window_tree(w)) == Some(w),
{
    assert(start_name().len() != end_name().len());
    let m = window_tree(w)->Object_0;
    assert(lookup(m, start_name()) == Some(JsonTree::Str(w.start)));
    assert(lookup(m, end_name()) == Some(JsonTree::Str(w.end)));
}

proof fn lemma_bucket_round_trip(v: JsonTree, w: Window)
    requires
        window_wf(w),
    ensures
        bucket_parts(bucket_tree(v, w)) == Some((v, w)),
{
    assert(value_name().len() != timeframe_name().len());
    let m = bucket_tree(v, w)->Object_0;
    assert(lookup(m, value_name()) == Some(v));
    assert(lookup(m, timeframe_name()) == Some(window_tree(w)));
    lemma_window_round_trip(w);
}

proof fn lemma_scalar_buckets_round_trip(b: Seq<(Window, int)>)
    requires
        forall|i: int| 0 <= i < b.len() ==> window_wf(#[trigger] b[i].0) && is_i64(b[i].1),
    ensures
        scalar_buckets_of(pod_bucket_trees(b)) == Some(b),
    decreases b.len(),
{
    if b.len() > 0 {
        assert(pod_bucket_trees(b).drop_last() =~= pod_bucket_trees(b.drop_last()));
        assert forall|i: int| 0 <= i < b.drop_last().len() implies window_wf(#[trigger] b.drop_last()[i].0) && is_i64(b.drop_last()[i].1) by {
            assert(b.drop_last()[i] == b[i]);
        }
        lemma_scalar_buckets_round_trip(b.drop_last());
        assert(window_wf(b[b.len() - 1].0));
        lemma_bucket_round_trip(JsonTree::Int(b.last().1), b.last().0);
        assert(b.drop_last().push(b.last()) =~= b);
    } else {
        assert(pod_bucket_trees(b) =~= Seq::<JsonTree>::empty());
        assert(b =~= Seq::<(Window, int)>::empty());
    }
}

proof fn lemma_row_buckets_round_trip(b: Seq<(Window, Seq<Row>)>)
    requires
        shape_valid(Shape::RowBuckets(b)),
    ensures
        row_buckets_of(item_bucket_trees(b)) == Some(b),
    decreases b.len(),
{
    let whole = Shape::RowBuckets(b);
    assert(whole->RowBuckets_0 == b);
    assert(shape_valid(whole));
    if b.len() > 0 {
        assert(item_bucket_trees(b).drop_last() =~= item_bucket_trees(b.drop_last()));
        assert forall|i: int| 0 <= i < b.drop_last().len() implies #[trigger] row_bucket_valid(b.drop_last()[i]) by {
            assert(b.drop_last()[i] == b[i]);
            assert(row_bucket_valid(b[i]));
        }
        assert(shape_valid(Shape::RowBuckets(b.drop_last())));
        lemma_row_buckets_round_trip(b.drop_last());
        assert(row_bucket_valid(b[b.len() - 1]));
        lemma_bucket_round_trip(rows_tree(b.last().1), b.last().0);
        lemma_rows_round_trip(b.last().1);
        assert(b.drop_last().push(b.last()) =~= b);
    } else {
        assert(item_bucket_trees(b) =~= Seq::<JsonTree>::empty());
        assert(b =~= Seq::<(Window, Seq<Row>)>::empty());
    }
}

/// Reading back a written result, as the shape it has, gives that result.
pub proof fn decode_encode_shape(s: Shape)
    requires
        shape_valid(s),
    ensures
        decode_shape(shape_type(s), shape_tree(s)) == Some(s),
{
    let m = shape_tree(s)->Object_0;
    assert(lookup(m, result_name()) == Some(crate::codec::payload_tree(s)));
    match s {
        Shape::Scalar(_) => {},
        Shape::Rows(rows) => lemma_rows_round_trip(rows),
        Shape::ScalarBuckets(b) => lemma_scalar_buckets_round_trip(b),
        Shape::RowBuckets(b) => lemma_row_buckets_round_trip(b),
    }
}

proof fn lemma_items_valid(items: crate::protocol::Items)
    requires
        items.wf(),
    ensures
        rows_valid(items@),
{
    assert forall|i: int| 0 <= i < items@.len() implies row_valid(#[trigger] items@[i]) by {
        let item = items.0@[i];
        assert(item.wf());
        assert(items@[i] == item@);
        assert forall|k: Seq<char>| #[trigger] item.fields@.contains_key(k) implies field_valid(item.fields@[k]) by {
            let j = choose|j: int| 0 <= j < item.fields.0@.len() && item.fields.0@[j].0@ == k;
            item.fields.lemma_entry(j);
            let x: StringOrI64 = item.fields.0@[j].1;
            match x {
                StringOrI64::String(_) => {},
                StringOrI64::I64(_) => {},
            }
        }
    }
}

/// Every well-formed result is one that JSON carries unchanged.
pub proof fn lemma_result_valid(r: KeenResult)
    requires
        r.wf(),
    ensures
        shape_valid(r@),
{
    match r.result {
        Payload::Pod(_) => {},
        Payload::Items(items) => lemma_items_valid(items),
        Payload::DaysPod(days) => {
            assert forall|i: int| 0 <= i < pod_days(days@).len() implies window_wf(#[trigger] pod_days(days@)[i].0) && is_i64(pod_days(days@)[i].1) by {
                assert(window_wf(days@[i].timeframe@));
            }
        },
        Payload::DaysItems(days) => {
            assert(crate::algebra::item_days_wf(days@));
            assert forall|i: int| 0 <= i < item_days(days@).len() implies #[trigger] row_bucket_valid(item_days(days@)[i]) by {
                assert(i < days@.len());
                assert(window_wf(days@[i].timeframe@));
                assert(days@[i].value.wf());
                lemma_items_valid(days@[i].value);
            }
        },
    }
}

/// Writing a result as a JSON document and reading that document back as
/// the same shape gives the same result.
pub proof fn decode_encode_round_trip(r: KeenResult)
    requires
        r.wf(),
    ensures
        decode_shape(shape_type(r@), shape_tree(r@)) == Some(r@),
{
    lemma_result_valid(r);
    decode_encode_shape(r@);
}

proof fn lemma_rows_total_concat(a: Seq<Row>, b: Seq<Row>)
    ensures
        rows_total(a + b) == rows_total(a) + rows_total(b),
    decreases b.len(),
{
    if b.len() == 0 {
        assert(a + b =~= a);
    } else {
        lemma_rows_total_concat(a, b.drop_last());
        assert((a + b).drop_last() =~= a + b.drop_last());
        assert((a + b).last() == b.last());
    }
}

proof fn lemma_part_concat(a: Seq<Row>, b: Seq<Row>, p: Seq<char>, k: Option<FieldValue>)
    ensures
        part(a + b, p, k) == part(a, p, k) + part(b, p, k),
    decreases b.len(),
{
    if b.len() == 0 {
        assert(a + b =~= a);
        assert(part(a, p, k) + part(b, p, k) =~= part(a, p, k));
    } else {
        lemma_part_concat(a, b.drop_last(), p, k);
        assert((a + b).drop_last() =~= a + b.drop_last());
        assert((a + b).last() == b.last());
        let pa = part(a, p, k);
        let pb = part(b.drop_last(), p, k);
        assert((pa + pb).push(b.last()) =~= pa + pb.push(b.last()));
    }
}

pub open spec fn all_keyed(s: Seq<Row>, p: Seq<char>, k: Option<FieldValue>) -> bool {
    forall|i: int| 0 <= i < s.len() ==> key_of(#[trigger] s[i], p) == k
}

proof fn lemma_part_uniform(s: Seq<Row>, p: Seq<char>, k0: Option<FieldValue>, k: Option<FieldValue>)
    requires
        all_keyed(s, p, k0),
    ensures
        part(s, p, k) == (if k == k0 { s } else { Seq::<Row>::empty() }),
    decreases s.len(),
{
    if s.len() > 0 {
        assert(all_keyed(s.drop_last(), p, k0)) by {
            assert forall|i: int| 0 <= i < s.drop_last().len() implies key_of(#[trigger] s.drop_last()[i], p) == k0 by {
                assert(s.drop_last()[i] == s[i]);
            }
        }
        lemma_part_uniform(s.drop_last(), p, k0, k);
        assert(key_of(s[s.len() - 1], p) == k0);
        assert(s.drop_last().push(s.last()) =~= s);
    } else {
        assert(s =~= Seq::<Row>::empty());
    }
}

proof fn lemma_part_keyed(rows: Seq<Row>, p: Seq<char>, k: Option<FieldValue>)
    ensures
        all_keyed(part(rows, p, k), p, k),
    decreases rows.len(),
{
    if rows.len() > 0 {
        lemma_part_keyed(rows.drop_last(), p, k);
        let init = part(rows.drop_last(), p, k);
        if key_of(rows.last(), p) == k {
            assert forall|i: int| 0 <= i < init.push(rows.last()).len() implies key_of(#[trigger] init.push(rows.last())[i], p) == k by {
                if i < init.len() {
                    assert(init.push(rows.last())[i] == init[i]);
                }
            }
        }
    }
}

proof fn lemma_insert_desc_keyed(s: Seq<Row>, x: Row, p: Seq<char>, k: Option<FieldValue>)
    requires
        all_keyed(s, p, k),
        key_of(x, p) == k,
    ensures
        all_keyed(insert_desc(s, x), p, k),
    decreases s.len(),
{
    if s.len() == 0 {
        assert(seq![x][0] == x);
    } else if s.last().result >= x.result {
        assert forall|i: int| 0 <= i < s.push(x).len() implies key_of(#[trigger] s.push(x)[i], p) == k by {
            if i < s.len() {
                assert(s.push(x)[i] == s[i]);
            }
        }
    } else {
        assert(all_keyed(s.drop_last(), p, k)) by {
            assert forall|i: int| 0 <= i < s.drop_last().len() implies key_of(#[trigger] s.drop_last()[i], p) == k by {
                assert(s.drop_last()[i] == s[i]);
            }
        }
        lemma_insert_desc_keyed(s.drop_last(), x, p, k);
        let t = insert_desc(s.drop_last(), x);
        assert(key_of(s[s.len() - 1], p) == k);
        assert forall|i: int| 0 <= i < t.push(s.last()).len() implies key_of(#[trigger] t.push(s.last())[i], p) == k by {
            if i < t.len() {
                assert(t.push(s.last())[i] == t[i]);
            }
        }
    }
}

proof fn lemma_sort_desc_keyed(s: Seq<Row>, p: Seq<char>, k: Option<FieldValue>)
    requires
        all_keyed(s, p, k),
    ensures
        all_keyed(sort_desc(s), p, k),
    decreases s.len(),
{
    if s.len() > 0 {
        assert(all_keyed(s.drop_last(), p, k)) by {
            assert forall|i: int| 0 <= i < s.drop_last().len() implies key_of(#[trigger] s.drop_last()[i], p) == k by {
                assert(s.drop_last()[i] == s[i]);
            }
        }
        lemma_sort_desc_keyed(s.drop_last(), p, k);
        assert(key_of(s[s.len() - 1], p) == k);
        lemma_insert_desc_keyed(sort_desc(s.drop_last()), s.last(), p, k);
    }
}

/// One trimmed partition: every row keeps the partition's primary value and
/// the counts sum as before.
proof fn lemma_block(rows: Seq<Row>, p: Seq<char>, q: Seq<char>, k: Option<FieldValue>)
    requires
        q != p,
    ensures
        all_keyed(trim_block(sort_desc(part(rows, p, k)), p, k, q), p, k),
        rows_total(trim_block(sort_desc(part(rows, p, k)), p, k, q)) == rows_total(part(rows, p, k)),
{
    let s = sort_desc(part(rows, p, k));
    lemma_part_keyed(rows, p, k);
    lemma_sort_desc_keyed(part(rows, p, k), p, k);
    lemma_sort_desc_total(part(rows, p, k));
    let h = head_len(s.len() as int);
    let head = s.subrange(0, h);
    lemma_rows_total_split(s, h, s.len() as int);
    assert(s.subrange(0, s.len() as int) =~= s);
    assert(all_keyed(head, p, k)) by {
        assert forall|i: int| 0 <= i < head.len() implies key_of(#[trigger] head[i], p) == k by {
            assert(head[i] == s[i]);
        }
    }
    let rest = rows_total(s.subrange(h, s.len() as int));
    if rest != 0 {
        let o = others_row(p, k, q, rest as nat);
        assert(key_of(o, p) == k);
        assert forall|i: int| 0 <= i < head.push(o).len() implies key_of(#[trigger] head.push(o)[i], p) == k by {
            if i < head.len() {
                assert(head.push(o)[i] == head[i]);
            }
        }
        assert(head.push(o).drop_last() =~= head);
        assert(head.push(o).last() == o);
        crate::algebra::lemma_rows_total_prefix(s.subrange(h, s.len() as int), 0);
    }
}

proof fn lemma_blocks_part(rows: Seq<Row>, p: Seq<char>, q: Seq<char>, keys: Seq<Option<FieldValue>>, k: Option<FieldValue>)
    requires
        q != p,
        keys.no_duplicates(),
    ensures
        rows_total(part(blocks(rows, p, q, keys), p, k))
            == if keys.contains(k) { rows_total(part(rows, p, k)) } else { 0 },
    decreases keys.len(),
{
    if keys.len() == 0 {
        assert(part(Seq::<Row>::empty(), p, k) =~= Seq::<Row>::empty());
    } else {
        let init = keys.drop_last();
        let last = keys.last();
        assert(init.no_duplicates());
        lemma_blocks_part(rows, p, q, init, k);
        let b = trim_block(sort_desc(part(rows, p, last)), p, last, q);
        lemma_block(rows, p, q, last);
        lemma_part_concat(blocks(rows, p, q, init), b, p, k);
        lemma_part_uniform(b, p, last, k);
        lemma_rows_total_concat(part(blocks(rows, p, q, init), p, k), part(b, p, k));
        if last == k {
            if init.contains(k) {
                let i = choose|i: int| 0 <= i < init.len() && init[i] == k;
                assert(keys[i] == keys[keys.len() - 1]);
            }
            assert(keys.contains(k)) by {
                assert(keys[keys.len() - 1] == k);
            }
        } else {
            assert(part(b, p, k) =~= Seq::<Row>::empty());
            if keys.contains(k) {
                let i = choose|i: int| 0 <= i < keys.len() && keys[i] == k;
                assert(init[i] == k);
            }
            if init.contains(k) {
                let i = choose|i: int| 0 <= i < init.len() && init[i] == k;
                assert(keys[i] == k);
            }
        }
    }
}

proof fn lemma_keys_of(rows: Seq<Row>, p: Seq<char>, k: Option<FieldValue>)
    ensures
        keys_of(rows, p).no_duplicates(),
        !keys_of(rows, p).contains(k) ==> part(rows, p, k) == Seq::<Row>::empty(),
    decreases rows.len(),
{
    if rows.len() > 0 {
        lemma_keys_of(rows.drop_last(), p, k);
        let init = keys_of(rows.drop_last(), p);
        let kl = key_of(rows.last(), p);
        if !init.contains(kl) {
            assert forall|i: int, j: int| 0 <= i < init.push(kl).len() && 0 <= j < init.push(kl).len() && i != j
                implies init.push(kl)[i] != init.push(kl)[j] by {
                if i < init.len() && j < init.len() {
                    assert(init.push(kl)[i] == init[i]);
                    assert(init.push(kl)[j] == init[j]);
                } else if i < init.len() {
                    assert(init.push(kl)[i] == init[i]);
                } else if j < init.len() {
                    assert(init.push(kl)[j] == init[j]);
                }
            }
            if !init.push(kl).contains(k) {
                assert(init.push(kl)[init.len() as int] == kl);
                if init.contains(k) {
                    let i = choose|i: int| 0 <= i < init.len() && init[i] == k;
                    assert(init.push(kl)[i] == k);
                }
            }
        } else if !init.contains(k) {
            assert(kl != k);
        }
    }
}

/// Pre-trim keeps, for every primary value, the summed count of the rows
/// that carry it.
pub proof fn pre_trim_keeps_partition_sums(rows: Seq<Row>, p: Seq<char>, q: Seq<char>, k: Option<FieldValue>)
    requires
        q != p,
    ensures
        rows_total(part(trimmed(rows, p, Some(q)), p, k)) == rows_total(part(rows, p, k)),
{
    lemma_keys_of(rows, p, k);
    lemma_blocks_part(rows, p, q, keys_of(rows, p), k);
    if !keys_of(rows, p).contains(k) {
        assert(rows_total(Seq::<Row>::empty()) == 0);
    }
}

/// Two queries with the same parts get byte-identical cache keys, on either side.
pub proof fn cache_key_is_deterministic(a: CacheQuery, b: CacheQuery, side: KeySide)
    requires
        a@ == b@,
    ensures
        cache_key_of(a@, side) == cache_key_of(b@, side),
{
}

/// The summed counts of the partitions for `keys`.
pub open spec fn parts_total(rows: Seq<Row>, p: Seq<char>, keys: Seq<Option<FieldValue>>) -> int
    decreases keys.len(),
{
    if keys.len() == 0 {
        0
    } else {
        parts_total(rows, p, keys.drop_last()) + rows_total(part(rows, p, keys.last()))
    }
}

proof fn lemma_blocks_total(rows: Seq<Row>, p: Seq<char>, q: Seq<char>, keys: Seq<Option<FieldValue>>)
    requires
        q != p,
    ensures
        rows_total(blocks(rows, p, q, keys)) == parts_total(rows, p, keys),
    decreases keys.len(),
{
    if keys.len() > 0 {
        lemma_blocks_total(rows, p, q, keys.drop_last());
        lemma_block(rows, p, q, keys.last());
        lemma_rows_total_concat(
            blocks(rows, p, q, keys.drop_last()),
            trim_block(sort_desc(part(rows, p, keys.last())), p, keys.last(), q),
        );
    }
}

/// Adding one row to the rows adds its count once, to the partition of its key.
proof fn lemma_parts_total_push(init: Seq<Row>, x: Row, p: Seq<char>, keys: Seq<Option<FieldValue>>)
    requires
        keys.no_duplicates(),
    ensures
        parts_total(init.push(x), p, keys)
            == parts_total(init, p, keys) + if keys.contains(key_of(x, p)) { x.result as int } else { 0 },
    decreases keys.len(),
{
    let rows = init.push(x);
    assert(rows.drop_last() =~= init);
    assert(rows.last() == x);
    if keys.len() > 0 {
        let ks = keys.drop_last();
        assert(ks.no_duplicates());
        lemma_parts_total_push(init, x, p, ks);
        let kl = keys.last();
        if key_of(x, p) == kl {
            assert(part(rows, p, kl).drop_last() =~= part(init, p, kl));
            assert(keys.contains(kl)) by {
                assert(keys[keys.len() - 1] == kl);
            }
            if ks.contains(kl) {
                let i = choose|i: int| 0 <= i < ks.len() && ks[i] == kl;
                assert(keys[i] == keys[keys.len() - 1]);
            }
        } else {
            if keys.contains(key_of(x, p)) {
                let i = choose|i: int| 0 <= i < keys.len() && keys[i] == key_of(x, p);
                assert(ks[i] == key_of(x, p));
            }
            if ks.contains(key_of(x, p)) {
                let i = choose|i: int| 0 <= i < ks.len() && ks[i] == key_of(x, p);
                assert(keys[i] == key_of(x, p));
            }
        }
    }
}

proof fn lemma_parts_total_absent(rows: Seq<Row>, p: Seq<char>, keys: Seq<Option<FieldValue>>, k: Option<FieldValue>)
    requires
        part(rows, p, k) == Seq::<Row>::empty(),
    ensures
        parts_total(rows, p, keys.push(k)) == parts_total(rows, p, keys),
{
    assert(keys.push(k).drop_last() =~= keys);
    assert(keys.push(k).last() == k);
}

proof fn lemma_keys_of_contains(rows: Seq<Row>, p: Seq<char>)
    ensures
        forall|i: int| 0 <= i < rows.len() ==> keys_of(rows, p).contains(key_of(#[trigger] rows[i], p)),
    decreases rows.len(),
{
    if rows.len() > 0 {
        lemma_keys_of_contains(rows.drop_last(), p);
        let init = keys_of(rows.drop_last(), p);
        let kl = key_of(rows.last(), p);
        assert forall|i: int| 0 <= i < rows.len() implies keys_of(rows, p).contains(key_of(#[trigger] rows[i], p)) by {
            if i < rows.len() - 1 {
                assert(rows.drop_last()[i] == rows[i]);
                assert(init.contains(key_of(rows[i], p)));
                if !init.contains(kl) {
                    let j = choose|j: int| 0 <= j < init.len() && init[j] == key_of(rows[i], p);
                    assert(init.push(kl)[j] == init[j]);
                }
            } else if !init.contains(kl) {
                assert(init.push(kl)[init.len() as int] == kl);
            }
        }
    }
}

proof fn lemma_parts_cover(rows: Seq<Row>, p: Seq<char>)
    ensures
        parts_total(rows, p, keys_of(rows, p)) == rows_total(rows),
    decreases rows.len(),
{
    if rows.len() > 0 {
        let init = rows.drop_last();
        let x = rows.last();
        assert(init.push(x) =~= rows);
        lemma_parts_cover(init, p);
        let ki = keys_of(init, p);
        let kx = key_of(x, p);
        lemma_keys_of(init, p, kx);
        lemma_keys_of(rows, p, kx);
        lemma_keys_of_contains(rows, p);
        assert(keys_of(rows, p).contains(kx)) by {
            assert(rows[rows.len() - 1] == x);
        }
        lemma_parts_total_push(init, x, p, keys_of(rows, p));
        if !ki.contains(kx) {
            lemma_parts_total_absent(init, p, ki, kx);
        }
    }
}

/// Pre-trim keeps the summed count of the whole row set.
pub proof fn pre_trim_keeps_total(rows: Seq<Row>, p: Seq<char>, q: Seq<char>)
    requires
        q != p,
    ensures
        rows_total(trimmed(rows, p, Some(q))) == rows_total(rows),
{
    lemma_blocks_total(rows, p, q, keys_of(rows, p));
    lemma_parts_cover(rows, p);
}

/// Each bucket starts no later than the next.
pub open spec fn sorted_by_start(b: Seq<(Window, int)>) -> bool {
    forall|i: int| 0 <= i && i + 1 < b.len() ==> (#[trigger] b[i]).0.from.not_after(b[i + 1].0.from)
}

proof fn lemma_insert_sorted(s: Seq<(Window, int)>, x: (Window, int))
    requires
        sorted_by_start(s),
    ensures
        sorted_by_start(insert_by_start(s, x)),
        insert_by_start(s, x).len() == s.len() + 1,
        insert_by_start(s, x).last() == x || (s.len() > 0 && insert_by_start(s, x).last() == s.last()),
    decreases s.len(),
{
    if s.len() == 0 {
        assert(seq![x].last() == x);
    } else if s.last().0.from.not_after(x.0.from) {
        let r = s.push(x);
        assert forall|i: int| 0 <= i && i + 1 < r.len() implies (#[trigger] r[i]).0.from.not_after(r[i + 1].0.from) by {
            if i + 1 < s.len() {
                assert(r[i] == s[i] && r[i + 1] == s[i + 1]);
            } else {
                assert(r[i] == s.last());
            }
        }
    } else {
        let init = s.drop_last();
        assert(sorted_by_start(init)) by {
            assert forall|i: int| 0 <= i && i + 1 < init.len() implies (#[trigger] init[i]).0.from.not_after(init[i + 1].0.from) by {
                assert(init[i] == s[i] && init[i + 1] == s[i + 1]);
            }
        }
        lemma_insert_sorted(init, x);
        let t = insert_by_start(init, x);
        let r = t.push(s.last());
        if init.len() > 0 {
            assert(init.last() == s[s.len() - 2]);
            assert(s[s.len() - 2].0.from.not_after(s[s.len() - 1].0.from));
        }
        assert forall|i: int| 0 <= i && i + 1 < r.len() implies (#[trigger] r[i]).0.from.not_after(r[i + 1].0.from) by {
            if i + 1 < t.len() {
                assert(r[i] == t[i] && r[i + 1] == t[i + 1]);
            } else {
                assert(r[i] == t.last());
                assert(r[i + 1] == s.last());
            }
        }
    }
}

proof fn lemma_sort_sorted(s: Seq<(Window, int)>)
    ensures
        sorted_by_start(sort_by_start(s)),
        sort_by_start(s).len() == s.len(),
    decreases s.len(),
{
    if s.len() > 0 {
        lemma_sort_sorted(s.drop_last());
        lemma_insert_sorted(sort_by_start(s.drop_last()), s.last());
    }
}

/// Merged scalar buckets come out in ascending order of their starts, as
/// many as both inputs hold together.
pub proof fn merge_is_sorted(x: Seq<(Window, int)>, y: Seq<(Window, int)>)
    ensures
        merged(Shape::ScalarBuckets(x), Shape::ScalarBuckets(y)) matches Some(Shape::ScalarBuckets(m))
            && sorted_by_start(m) && m.len() == x.len() + y.len(),
{
    lemma_sort_sorted(x + y);
}

} // verus!
