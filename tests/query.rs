use keenio_batch::{
    parse_instant, KeenResult, NativeError, Payload, ResultType, answer, cache_payload, read_response,
};

#[test]
fn successful_reply_is_decoded() {
    let r = read_response(true, r#"{"result": 5}"#, ResultType::POD).unwrap();
    assert!(matches!(r.result, Payload::Pod(5)));
}

#[test]
fn failed_reply_carries_the_service_error() {
    let e = read_response(false, r#"{"message":"slow down","error_code":"TooManyRequests"}"#, ResultType::POD);
    match e {
        Err(NativeError::UpstreamError(k)) => {
            assert_eq!(k.message, "slow down");
            assert_eq!(k.error_code, "TooManyRequests");
        }
        _ => panic!("expected an upstream error"),
    }
    assert!(matches!(read_response(false, "<html>", ResultType::POD), Err(NativeError::ParseError)));
}

#[test]
fn cached_payload_of_rows_is_trimmed() {
    let parts: Vec<String> = (1..=35u64)
        .map(|n| format!(r#"{{"result":{},"pageId":1,"country":"c{}"}}"#, n, n))
        .collect();
    let text = format!(r#"{{"result":[{}]}}"#, parts.join(","));
    let r = KeenResult::from_str(&text, ResultType::Items).unwrap();
    let stored = cache_payload(r, Some(("pageId", "country"))).unwrap();
    let back = KeenResult::from_str(&stored, ResultType::Items).unwrap();
    match &back.result {
        Payload::Items(items) => {
            assert_eq!(items.0.len(), 31);
            assert_eq!(items.0[30].result, 1 + 2 + 3 + 4 + 5);
        }
        _ => panic!("not rows"),
    }
}

#[test]
fn cached_payload_of_a_scalar_is_its_document() {
    let r = KeenResult::from_str(r#"{"result": 9}"#, ResultType::POD).unwrap();
    assert_eq!(cache_payload(r, None).unwrap(), r#"{"result":9}"#);
}

#[test]
fn answer_reads_the_page_from_the_cache() {
    let cached = r#"{"result":[{"result":4,"pageId":1},{"result":9,"pageId":2}]}"#;
    assert_eq!(answer(Some(cached), ResultType::Items, None, "2", ResultType::POD).unwrap(), r#"{"result":9}"#);
    assert_eq!(answer(Some(cached), ResultType::Items, None, "3", ResultType::POD).unwrap(), r#"{"result":0}"#);
}

#[test]
fn answer_reports_miss_parse_and_shape_errors() {
    assert!(matches!(answer(None, ResultType::Items, None, "1", ResultType::POD), Err(NativeError::CacheMiss)));
    assert!(matches!(answer(Some("{"), ResultType::Items, None, "1", ResultType::POD), Err(NativeError::ParseError)));
    assert!(matches!(
        answer(Some(r#"{"result":3}"#), ResultType::POD, None, "1", ResultType::POD),
        Err(NativeError::InvalidShape)
    ));
}

#[test]
fn answer_refuses_sums_beyond_i64() {
    let cached = r#"{"result":[{"result":18446744073709551615,"pageId":1}]}"#;
    assert!(matches!(
        answer(Some(cached), ResultType::Items, None, "1", ResultType::POD),
        Err(NativeError::InvalidArgument)
    ));
}

#[test]
fn grouping_and_bucketing_change_the_shape() {
    assert_eq!(ResultType::POD.group_by(), ResultType::Items);
    assert_eq!(ResultType::DaysPOD.group_by(), ResultType::DaysItems);
    assert_eq!(ResultType::Items.group_by(), ResultType::Items);
    assert_eq!(ResultType::POD.interval(), ResultType::DaysPOD);
    assert_eq!(ResultType::Items.interval(), ResultType::DaysItems);
    assert_eq!(ResultType::POD.group_by().interval(), ResultType::DaysItems);
}

#[test]
fn fits_checks_every_sum() {
    let small = KeenResult::from_str(r#"{"result":[{"result":1,"pageId":1}]}"#, ResultType::Items).unwrap();
    assert!(small.fits());
    let big = KeenResult::from_str(
        r#"{"result":[{"result":9223372036854775807,"pageId":1},{"result":1,"pageId":2}]}"#,
        ResultType::Items,
    )
    .unwrap();
    assert!(!big.fits());
    let neg = KeenResult::from_str(r#"{"result":-9223372036854775808}"#, ResultType::POD).unwrap();
    assert!(!neg.fits());
}

#[test]
fn answer_restricts_days_to_the_window_before_selecting() {
    let cached = r#"{"result":[
      {"value":[{"result":5,"pageId":7}],"timeframe":{"start":"2024-01-01T00:00:00Z","end":"2024-01-02T00:00:00Z"}},
      {"value":[{"result":6,"pageId":7}],"timeframe":{"start":"2024-01-02T00:00:00Z","end":"2024-01-03T00:00:00Z"}},
      {"value":[{"result":7,"pageId":7}],"timeframe":{"start":"2024-01-03T00:00:00Z","end":"2024-01-04T00:00:00Z"}}]}"#;
    let window = Some((
        parse_instant("2024-01-02T00:00:00Z").unwrap(),
        parse_instant("2024-01-04T00:00:00Z").unwrap(),
    ));
    assert_eq!(answer(Some(cached), ResultType::DaysItems, window, "7", ResultType::POD).unwrap(), r#"{"result":13}"#);
    assert_eq!(answer(Some(cached), ResultType::DaysItems, None, "7", ResultType::POD).unwrap(), r#"{"result":18}"#);
    let rows = r#"{"result":[{"result":4,"pageId":1}]}"#;
    assert!(matches!(
        answer(Some(rows), ResultType::Items, window, "1", ResultType::POD),
        Err(NativeError::InvalidShape)
    ));
}
