//! The decisions of the read and write paths; the I/O around them is the
//! caller's.
use vstd::prelude::*;
use crate::algebra::{
    abs, buckets_total, in_window, ranged, within, lemma_bucket_within, lemma_buckets_prefix, lemma_buckets_step,
    lemma_rows_total_prefix, lemma_rows_total_step, lemma_values_prefix, lemma_values_step,
    magnitude, rows_total, selected, values_magnitude,
};
use crate::codec::{decode_shape, shape_tree};
use crate::error::NativeError;
use crate::json::{JsonTree, json_parse, json_text};
use crate::protocol::{
    Day, FieldValue, Items, KeenError, KeenResult, Payload, ResultType, Row, Shape, StringOrI64,
    Window, item_days, pod_days, result_name,
};
use crate::time::Instant;
use crate::trim::trimmed;

verus! {

impl ResultType {
    /// The shape a query returns once it also groups by a field.
    pub open spec fn grouped(self) -> ResultType {
        match self {
            ResultType::POD => ResultType::Items,
            ResultType::DaysPOD => ResultType::DaysItems,
            other => other,
        }
    }

    /// The shape a query returns once it is also cut into time buckets.
    pub open spec fn bucketed(self) -> ResultType {
        match self {
            ResultType::POD => ResultType::DaysPOD,
            ResultType::Items => ResultType::DaysItems,
            other => other,
        }
    }

    pub fn group_by(self) -> (r: ResultType)
        ensures
            r == self.grouped(),
    {
        match self {
            ResultType::POD => ResultType::Items,
            ResultType::DaysPOD => ResultType::DaysItems,
            other => other,
        }
    }

    pub fn interval(self) -> (r: ResultType)
        ensures
            r == self.bucketed(),
    {
        match self {
            ResultType::POD => ResultType::DaysPOD,
            ResultType::Items => ResultType::DaysItems,
            other => other,
        }
    }
}

fn items_fit(items: &Items) -> (r: bool)
    ensures
        r == (rows_total(items@) <= i64::MAX),
{
    let mut sum: u64 = 0;
    let mut i: usize = 0;
    while i < items.0.len()
        invariant
            i <= items.0@.len(),
            sum == rows_total(items@.subrange(0, i as int)),
            sum <= i64::MAX,
        decreases items.0@.len() - i,
    {
        proof {
            assert(items@[i as int].result == items.0@[i as int].result);
            lemma_rows_total_step(items@, i as int);
        }
        if items.0[i].result > i64::MAX as u64 - sum {
            proof {
                lemma_rows_total_prefix(items@, i as int + 1);
            }
            return false;
        }
        sum = sum + items.0[i].result;
        i = i + 1;
    }
    assert(items@.subrange(0, i as int) =~= items@);
    true
}

fn abs_u64(n: i64) -> (r: u64)
    ensures
        r == abs(n as int),
{
    if n < 0 {
        if n == i64::MIN {
            9223372036854775808u64
        } else {
            (-n) as u64
        }
    } else {
        n as u64
    }
}

fn pod_days_fit(days: &Vec<Day<i64>>) -> (r: bool)
    ensures
        r == (values_magnitude(pod_days(days@)) <= i64::MAX),
{
    let ghost b = pod_days(days@);
    let mut sum: u64 = 0;
    let mut i: usize = 0;
    while i < days.len()
        invariant
            b == pod_days(days@),
            i <= days@.len(),
            sum == values_magnitude(b.subrange(0, i as int)),
            sum <= i64::MAX,
        decreases days@.len() - i,
    {
        proof {
            assert(b[i as int].1 == days@[i as int].value as int);
            lemma_values_step(b, i as int);
        }
        let a = abs_u64(days[i].value);
        if a > i64::MAX as u64 - sum {
            proof {
                lemma_values_prefix(b, i as int + 1);
            }
            return false;
        }
        sum = sum + a;
        i = i + 1;
    }
    assert(b.subrange(0, i as int) =~= b);
    true
}

fn item_days_fit(days: &Vec<Day<Items>>) -> (r: bool)
    ensures
        r == (buckets_total(item_days(days@)) <= i64::MAX),
{
    let ghost b = item_days(days@);
    let mut sum: u64 = 0;
    let mut i: usize = 0;
    while i < days.len()
        invariant
            b == item_days(days@),
            i <= days@.len(),
            sum == buckets_total(b.subrange(0, i as int)),
            sum <= i64::MAX,
        decreases days@.len() - i,
    {
        proof {
            assert(b[i as int].1 == days@[i as int].value@);
            lemma_buckets_step(b, i as int);
            lemma_buckets_prefix(b, i as int);
        }
        if !items_fit(&days[i].value) {
            proof {
                lemma_bucket_within(b, i as int);
                lemma_buckets_prefix(b, i as int + 1);
                lemma_rows_total_prefix(b[i as int].1, b[i as int].1.len() as int);
                assert(b[i as int].1.subrange(0, b[i as int].1.len() as int) =~= b[i as int].1);
            }
            return false;
        }
        let n = crate::algebra::total_of_items(&days[i].value);
        if n > i64::MAX as u64 - sum {
            proof {
                lemma_buckets_prefix(b, i as int + 1);
            }
            return false;
        }
        sum = sum + n;
        i = i + 1;
    }
    assert(b.subrange(0, i as int) =~= b);
    true
}

impl KeenResult {
    /// Whether every sum the operations form from this result fits `i64`.
    pub fn fits(&self) -> (r: bool)
        ensures
            r == (magnitude(self@) <= i64::MAX),
    {
        match &self.result {
            Payload::Pod(n) => abs_u64(*n) <= i64::MAX as u64,
            Payload::Items(items) => items_fit(items),
            Payload::DaysPod(days) => pod_days_fit(days),
            Payload::DaysItems(days) => item_days_fit(days),
        }
    }
}

/// What a reply of the analytics service means: on success the result of
/// shape `tp` read from `body`; on failure the service's error document, as
/// `UpstreamError`. A body that does not read fails with `ParseError`.
pub fn read_response(success: bool, body: &str, tp: ResultType) -> (r: Result<KeenResult, NativeError>)
    ensures
        success ==> match json_parse(body@) {
            Some(t) => match decode_shape(tp, t) {
                Some(s) => r is Ok && r->Ok_0@ == s && r->Ok_0.wf(),
                None => r is Err && r->Err_0 is ParseError,
            },
            None => r is Err && r->Err_0 is ParseError,
        },
        !success ==> match json_parse(body@) {
            Some(JsonTree::Object(m)) => match (crate::codec::lookup(m, crate::codec::message_name()), crate::codec::lookup(m, crate::codec::error_code_name())) {
                (Some(JsonTree::Str(msg)), Some(JsonTree::Str(code))) => r is Err && (r->Err_0 matches NativeError::UpstreamError(e)
                    && e.message@ == msg && e.error_code@ == code),
                _ => r is Err && r->Err_0 is ParseError,
            },
            _ => r is Err && r->Err_0 is ParseError,
        },
{
    if success {
        KeenResult::from_str(body, tp)
    } else {
        match KeenError::from_str(body) {
            Ok(e) => Err(NativeError::UpstreamError(e)),
            Err(e) => Err(e),
        }
    }
}

/// The text to store in the cache for a fetched result: a row set is
/// pre-trimmed by `trim` (primary and secondary field) where one is given.
/// Fails with `InvalidArgument` where the rows sum beyond `u64`.
pub fn cache_payload(result: KeenResult, trim: Option<(&str, &str)>) -> (r: Result<String, NativeError>)
    requires
        result.wf(),
        trim matches Some((p, q)) ==> p@ != result_name() && q@ != result_name() && p@ != q@,
    ensures
        match (result@, trim) {
            (Shape::Rows(rows), Some((p, q))) => if rows_total(rows) <= u64::MAX {
                r is Ok && r->Ok_0@ == json_text(shape_tree(Shape::Rows(trimmed(rows, p@, Some(q@)))))
            } else {
                r is Err && r->Err_0 is InvalidArgument
            },
            _ => r is Ok && r->Ok_0@ == json_text(shape_tree(result@)),
        },
{
    match (result.result, trim) {
        (Payload::Items(items), Some((p, q))) => {
            if !crate::algebra::items_within_u64(&items) {
                return Err(NativeError::InvalidArgument);
            }
            let t = items.pre_trim(p, Some(q));
            let out = KeenResult { result: Payload::Items(t) };
            Ok(out.to_string())
        },
        (payload, _) => {
            let out = KeenResult { result: payload };
            Ok(out.to_string())
        },
    }
}

/// What a read makes of a cached result `s`: restricted to `window` where
/// one is given, then the rows of page `page_id` selected into shape `to`.
pub open spec fn read_of(s: Shape, window: Option<(Instant, Instant)>, page_id: Seq<char>, to: ResultType) -> Option<Shape> {
    let narrowed = match window {
        Some((from, until)) => ranged(s, from, until),
        None => Some(s),
    };
    match narrowed {
        Some(n) => selected(n, page_name(), FieldValue::Text(page_id), to),
        None => None,
    }
}

/// Answers a read from the cached text: `CacheMiss` where nothing is cached,
/// `ParseError` where the text is not a result of shape `stored`,
/// `InvalidArgument` where its sums do not fit `i64`, `InvalidShape` where
/// the shapes do not allow the read, and otherwise the result of the read,
/// written as JSON.
pub fn answer(
    cached: Option<&str>,
    stored: ResultType,
    window: Option<(Instant, Instant)>,
    page_id: &str,
    to: ResultType,
) -> (r: Result<String, NativeError>)
    ensures
        match cached {
            None => r is Err && r->Err_0 is CacheMiss,
            Some(text) => match json_parse(text@) {
                None => r is Err && r->Err_0 is ParseError,
                Some(t) => match decode_shape(stored, t) {
                    None => r is Err && r->Err_0 is ParseError,
                    Some(s) => if magnitude(s) > i64::MAX {
                        r is Err && r->Err_0 is InvalidArgument
                    } else {
                        match read_of(s, window, page_id@, to) {
                            Some(v) => r is Ok && r->Ok_0@ == json_text(shape_tree(v)),
                            None => r is Err && r->Err_0 is InvalidShape,
                        }
                    },
                },
            },
        },
{
    let text = match cached {
        Some(t) => t,
        None => return Err(NativeError::CacheMiss),
    };
    let doc = match KeenResult::from_str(text, stored) {
        Ok(d) => d,
        Err(e) => return Err(e),
    };
    if !doc.fits() {
        return Err(NativeError::InvalidArgument);
    }
    let doc = match window {
        Some((from, until)) => {
            let ghost before = doc@;
            match doc.range(from, until) {
                Ok(d) => {
                    proof {
                        lemma_within_magnitude(before, from, until);
                    }
                    d
                },
                Err(e) => return Err(e),
            }
        },
        None => doc,
    };
    proof {
        reveal_strlit("pageId");
    }
    let key = "pageId";
    assert(key@ =~= page_name());
    let picked = match doc.select((key, StringOrI64::String(page_id.to_owned())), to) {
        Ok(v) => v,
        Err(e) => return Err(e),
    };
    Ok(picked.to_string())
}

proof fn lemma_within_rows(b: Seq<(Window, Seq<Row>)>, from: Instant, until: Instant)
    ensures
        0 <= buckets_total(within(b, from, until)) <= buckets_total(b),
    decreases b.len(),
{
    if b.len() > 0 {
        lemma_within_rows(b.drop_last(), from, until);
        let init = within(b.drop_last(), from, until);
        lemma_rows_total_prefix(b.last().1, b.last().1.len() as int);
        assert(b.last().1.subrange(0, b.last().1.len() as int) =~= b.last().1);
        if in_window(b.last().0, from, until) {
            assert(init.push(b.last()).drop_last() =~= init);
        }
    }
}

proof fn lemma_within_values(b: Seq<(Window, int)>, from: Instant, until: Instant)
    ensures
        0 <= values_magnitude(within(b, from, until)) <= values_magnitude(b),
    decreases b.len(),
{
    if b.len() > 0 {
        lemma_within_values(b.drop_last(), from, until);
        let init = within(b.drop_last(), from, until);
        if in_window(b.last().0, from, until) {
            assert(init.push(b.last()).drop_last() =~= init);
        }
    }
}

/// Keeping fewer buckets never raises the bound on the sums.
proof fn lemma_within_magnitude(s: Shape, from: Instant, until: Instant)
    ensures
        ranged(s, from, until) matches Some(n) ==> magnitude(n) <= magnitude(s),
{
    match s {
        Shape::ScalarBuckets(b) => lemma_within_values(b, from, until),
        Shape::RowBuckets(b) => lemma_within_rows(b, from, until),
        _ => {},
    }
}

/// The grouping field that holds the page id.
pub open spec fn page_name() -> Seq<char> {
    seq!['p', 'a', 'g', 'e', 'I', 'd']
}

} // verus!
