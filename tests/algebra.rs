use keenio_batch::{
    Instant, KeenResult, NativeError, Payload, ResultType, StringOrI64, parse_instant,
};

fn decode(text: &str, tp: ResultType) -> KeenResult {
    match KeenResult::from_str(text, tp) {
        Ok(r) => r,
        Err(e) => panic!("decode failed: {:?}", e),
    }
}

fn pod(r: &KeenResult) -> i64 {
    match r.result {
        Payload::Pod(n) => n,
        _ => panic!("not a scalar"),
    }
}

fn at(text: &str) -> Instant {
    parse_instant(text).unwrap()
}

const THREE_DAYS_OF_ROWS: &str = r#"{"result":[
  {"value":[{"result":5,"pageId":7},{"result":3,"pageId":8}],
   "timeframe":{"start":"2024-01-01T00:00:00Z","end":"2024-01-02T00:00:00Z"}},
  {"value":[{"result":2,"pageId":"8"},{"result":6,"pageId":"7"}],
   "timeframe":{"start":"2024-01-02T00:00:00Z","end":"2024-01-03T00:00:00Z"}},
  {"value":[{"result":7,"pageId":7}],
   "timeframe":{"start":"2024-01-03T00:00:00Z","end":"2024-01-04T00:00:00Z"}}
]}"#;

const THREE_DAYS_OF_COUNTS: &str = r#"{"result":[
  {"value":3,"timeframe":{"start":"2024-01-01T00:00:00Z","end":"2024-01-02T00:00:00Z"}},
  {"value":7,"timeframe":{"start":"2024-01-02T00:00:00Z","end":"2024-01-03T00:00:00Z"}},
  {"value":5,"timeframe":{"start":"2024-01-03T00:00:00Z","end":"2024-01-04T00:00:00Z"}}
]}"#;

#[test]
fn scalar_decodes_and_does_not_accumulate() {
    let r = decode(r#"{"result": 42}"#, ResultType::POD);
    assert_eq!(pod(&r), 42);
    assert!(matches!(r.accumulate(ResultType::POD), Err(NativeError::InvalidShape)));
}

#[test]
fn select_over_days_sums_the_matching_row_of_each_day() {
    let r = decode(THREE_DAYS_OF_ROWS, ResultType::DaysItems);
    let s = r.select(("pageId", StringOrI64::String("7".to_string())), ResultType::POD).unwrap();
    assert_eq!(pod(&s), 5 + 6 + 7);
}

#[test]
fn select_over_days_then_accumulate_to_scalar() {
    let r = decode(THREE_DAYS_OF_ROWS, ResultType::DaysItems);
    let s = r.select(("pageId", StringOrI64::I64(7)), ResultType::DaysItems).unwrap();
    match &s.result {
        Payload::DaysItems(days) => {
            assert_eq!(days.len(), 3);
            for d in days {
                assert_eq!(d.value.0.len(), 1);
                assert!(d.value.0[0].fields.get("pageId").is_none());
            }
        }
        _ => panic!("not row buckets"),
    }
    let a = s.accumulate(ResultType::POD).unwrap();
    assert_eq!(pod(&a), 18);
}

#[test]
fn select_over_days_gives_a_count_per_day() {
    let r = decode(THREE_DAYS_OF_ROWS, ResultType::DaysItems);
    let s = r.select(("pageId", StringOrI64::I64(8)), ResultType::DaysPOD).unwrap();
    match &s.result {
        Payload::DaysPod(days) => {
            let values: Vec<i64> = days.iter().map(|d| d.value).collect();
            assert_eq!(values, vec![3, 2, 0]);
        }
        _ => panic!("not scalar buckets"),
    }
}

#[test]
fn range_keeps_inner_days_then_sums() {
    let r = decode(THREE_DAYS_OF_COUNTS, ResultType::DaysPOD);
    let ranged = r.range(at("2024-01-01T00:00:00Z"), at("2024-01-03T00:00:00Z")).unwrap();
    match &ranged.result {
        Payload::DaysPod(days) => {
            let values: Vec<i64> = days.iter().map(|d| d.value).collect();
            assert_eq!(values, vec![3, 7]);
        }
        _ => panic!("not scalar buckets"),
    }
    assert_eq!(pod(&ranged.accumulate(ResultType::POD).unwrap()), 10);
}

#[test]
fn range_over_all_windows_changes_nothing() {
    let r = decode(THREE_DAYS_OF_COUNTS, ResultType::DaysPOD);
    let before = r.to_string();
    let ranged = r.range(at("2023-12-31T00:00:00Z"), at("2024-01-05T00:00:00Z")).unwrap();
    assert_eq!(ranged.to_string(), before);
}

#[test]
fn range_drops_a_bucket_that_straddles_the_end() {
    let r = decode(THREE_DAYS_OF_COUNTS, ResultType::DaysPOD);
    let ranged = r.range(at("2024-01-01T00:00:00Z"), at("2024-01-02T12:00:00Z")).unwrap();
    match &ranged.result {
        Payload::DaysPod(days) => assert_eq!(days.len(), 1),
        _ => panic!("not scalar buckets"),
    }
}

#[test]
fn range_on_rows_is_an_invalid_shape() {
    let r = decode(r#"{"result":[{"result":1,"pageId":1}]}"#, ResultType::Items);
    let e = r.range(at("2024-01-01T00:00:00Z"), at("2024-01-02T00:00:00Z"));
    assert!(matches!(e, Err(NativeError::InvalidShape)));
}

#[test]
fn select_then_accumulate_sums_exactly_the_matching_rows() {
    let text = r#"{"result":[
        {"result":4,"pageId":1,"country":"DE"},
        {"result":9,"pageId":2,"country":"FR"},
        {"result":6,"pageId":"1","country":"US"},
        {"result":1,"country":"DE"}]}"#;
    let r = decode(text, ResultType::Items);
    let s = r.select(("pageId", StringOrI64::String("1".to_string())), ResultType::Items).unwrap();
    match &s.result {
        Payload::Items(items) => {
            assert_eq!(items.0.len(), 2);
            assert!(items.0[0].fields.get("pageId").is_none());
            assert!(items.0[0].fields.get("country").is_some());
        }
        _ => panic!("not rows"),
    }
    assert_eq!(pod(&s.accumulate(ResultType::POD).unwrap()), 10);
}

#[test]
fn select_to_scalar_takes_the_first_match() {
    let text = r#"{"result":[{"result":4,"pageId":1},{"result":6,"pageId":1}]}"#;
    let r = decode(text, ResultType::Items);
    let s = r.select(("pageId", StringOrI64::I64(1)), ResultType::POD).unwrap();
    assert_eq!(pod(&s), 4);
    let none = decode(text, ResultType::Items)
        .select(("pageId", StringOrI64::I64(3)), ResultType::POD)
        .unwrap();
    assert_eq!(pod(&none), 0);
}

#[test]
fn select_on_scalars_is_an_invalid_shape() {
    let r = decode(THREE_DAYS_OF_COUNTS, ResultType::DaysPOD);
    let e = r.select(("pageId", StringOrI64::I64(1)), ResultType::POD);
    assert!(matches!(e, Err(NativeError::InvalidShape)));
    let rows = decode(r#"{"result":[]}"#, ResultType::Items);
    let e = rows.select(("pageId", StringOrI64::I64(1)), ResultType::DaysItems);
    assert!(matches!(e, Err(NativeError::InvalidShape)));
}

#[test]
fn empty_row_set_accumulates_to_zero() {
    let r = decode(r#"{"result":[]}"#, ResultType::Items);
    assert_eq!(pod(&r.accumulate(ResultType::POD).unwrap()), 0);
}

#[test]
fn day_rows_accumulate_per_day_or_in_total() {
    let per_day = decode(THREE_DAYS_OF_ROWS, ResultType::DaysItems)
        .accumulate(ResultType::DaysPOD)
        .unwrap();
    match &per_day.result {
        Payload::DaysPod(days) => {
            let values: Vec<i64> = days.iter().map(|d| d.value).collect();
            assert_eq!(values, vec![8, 8, 7]);
        }
        _ => panic!("not scalar buckets"),
    }
    let total = decode(THREE_DAYS_OF_ROWS, ResultType::DaysItems)
        .accumulate(ResultType::POD)
        .unwrap();
    assert_eq!(pod(&total), 23);
    let wrong = decode(THREE_DAYS_OF_ROWS, ResultType::DaysItems).accumulate(ResultType::Items);
    assert!(matches!(wrong, Err(NativeError::InvalidShape)));
}

#[test]
fn merge_sorts_by_start_and_keeps_the_sum() {
    let a = decode(
        r#"{"result":[
          {"value":4,"timeframe":{"start":"2024-01-03T00:00:00Z","end":"2024-01-04T00:00:00Z"}},
          {"value":1,"timeframe":{"start":"2024-01-01T00:00:00Z","end":"2024-01-02T00:00:00Z"}}]}"#,
        ResultType::DaysPOD,
    );
    let b = decode(
        r#"{"result":[
          {"value":2,"timeframe":{"start":"2024-01-02T00:00:00Z","end":"2024-01-03T00:00:00Z"}},
          {"value":8,"timeframe":{"start":"2024-01-01T00:00:00Z","end":"2024-01-02T00:00:00Z"}}]}"#,
        ResultType::DaysPOD,
    );
    let m = a.merge(b).unwrap();
    match &m.result {
        Payload::DaysPod(days) => {
            let values: Vec<i64> = days.iter().map(|d| d.value).collect();
            assert_eq!(values, vec![1, 8, 2, 4]);
        }
        _ => panic!("not scalar buckets"),
    }
    assert_eq!(pod(&m.accumulate(ResultType::POD).unwrap()), 15);
}

#[test]
fn merge_of_rows_is_an_invalid_shape() {
    let a = decode(r#"{"result":[]}"#, ResultType::Items);
    let b = decode(THREE_DAYS_OF_COUNTS, ResultType::DaysPOD);
    assert!(matches!(a.merge(b), Err(NativeError::InvalidShape)));
}

#[test]
fn integer_equals_its_decimal_text() {
    assert!(StringOrI64::I64(7) == StringOrI64::String("7".to_string()));
    assert!(StringOrI64::String("7".to_string()) == StringOrI64::I64(7));
    assert!(StringOrI64::I64(-12) == StringOrI64::String("-12".to_string()));
    assert!(StringOrI64::I64(i64::MIN) == StringOrI64::String(i64::MIN.to_string()));
    assert!(StringOrI64::I64(7) != StringOrI64::String("07".to_string()));
    assert!(StringOrI64::I64(7) != StringOrI64::I64(8));
    assert!(StringOrI64::String("a".to_string()) == StringOrI64::String("a".to_string()));
}
