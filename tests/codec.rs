use keenio_batch::{KeenError, KeenResult, NativeError, Payload, ResultType, StringOrI64};

fn decode(text: &str, tp: ResultType) -> KeenResult {
    match KeenResult::from_str(text, tp) {
        Ok(r) => r,
        Err(e) => panic!("decode failed: {:?}", e),
    }
}

#[test]
fn zero_rows_are_dropped_on_decode() {
    let r = decode(
        r#"{"result":[{"result":10,"pageId":1},{"result":0,"pageId":2}]}"#,
        ResultType::Items,
    );
    match &r.result {
        Payload::Items(items) => {
            assert_eq!(items.0.len(), 1);
            assert_eq!(items.0[0].result, 10);
            assert!(matches!(items.0[0].fields.get("pageId"), Some(StringOrI64::I64(1))));
        }
        _ => panic!("not rows"),
    }
}

#[test]
fn missing_result_is_a_parse_error() {
    assert!(matches!(KeenResult::from_str(r#"{"value": 1}"#, ResultType::POD), Err(NativeError::ParseError)));
    assert!(matches!(KeenResult::from_str("not json", ResultType::POD), Err(NativeError::ParseError)));
    assert!(matches!(KeenResult::from_str(r#"[1]"#, ResultType::POD), Err(NativeError::ParseError)));
}

#[test]
fn shape_mismatch_is_a_parse_error() {
    assert!(matches!(KeenResult::from_str(r#"{"result": [1]}"#, ResultType::POD), Err(NativeError::ParseError)));
    assert!(matches!(KeenResult::from_str(r#"{"result": 3}"#, ResultType::Items), Err(NativeError::ParseError)));
    assert!(matches!(
        KeenResult::from_str(r#"{"result":[{"pageId":1}]}"#, ResultType::Items),
        Err(NativeError::ParseError)
    ));
    assert!(matches!(
        KeenResult::from_str(r#"{"result":[{"result":-1}]}"#, ResultType::Items),
        Err(NativeError::ParseError)
    ));
}

#[test]
fn bad_timeframe_is_a_parse_error() {
    let text = r#"{"result":[{"value":3,"timeframe":{"start":"yesterday","end":"2024-01-02T00:00:00Z"}}]}"#;
    assert!(matches!(KeenResult::from_str(text, ResultType::DaysPOD), Err(NativeError::ParseError)));
    let no_end = r#"{"result":[{"value":3,"timeframe":{"start":"2024-01-01T00:00:00Z"}}]}"#;
    assert!(matches!(KeenResult::from_str(no_end, ResultType::DaysPOD), Err(NativeError::ParseError)));
}

#[test]
fn field_values_are_normalised() {
    let r = decode(
        r#"{"result":[{"result":3,"a":null,"b":true,"c":"x","d":-4,"e":1.5}]}"#,
        ResultType::Items,
    );
    match &r.result {
        Payload::Items(items) => {
            let f = &items.0[0].fields;
            assert!(matches!(f.get("a"), Some(StringOrI64::String(ref s)) if s == "null"));
            assert!(matches!(f.get("b"), Some(StringOrI64::I64(0))));
            assert!(matches!(f.get("c"), Some(StringOrI64::String(ref s)) if s == "x"));
            assert!(matches!(f.get("d"), Some(StringOrI64::I64(-4))));
            assert!(matches!(f.get("e"), Some(StringOrI64::I64(0))));
            assert!(f.get("result").is_none());
        }
        _ => panic!("not rows"),
    }
}

#[test]
fn every_shape_reads_back_as_written() {
    let cases = [
        (r#"{"result":42}"#, ResultType::POD),
        (r#"{"result":[{"result":10,"pageId":1,"country":"DE"},{"result":2,"pageId":"3"}]}"#, ResultType::Items),
        (
            r#"{"result":[{"value":3,"timeframe":{"start":"2024-01-01T00:00:00Z","end":"2024-01-02T00:00:00Z"}}]}"#,
            ResultType::DaysPOD,
        ),
        (
            r#"{"result":[{"value":[{"result":5,"pageId":7}],"timeframe":{"start":"2024-01-01T00:00:00Z","end":"2024-01-02T00:00:00Z"}}]}"#,
            ResultType::DaysItems,
        ),
    ];
    for (text, tp) in cases.iter() {
        let first = decode(text, *tp);
        let written = first.to_string();
        let second = decode(&written, *tp);
        assert_eq!(second.to_string(), written);
        assert_eq!(second.result_type(), *tp);
    }
}

#[test]
fn written_document_has_the_envelope() {
    let r = decode(r#"{"result":[{"result":10,"pageId":1}]}"#, ResultType::Items);
    assert_eq!(r.to_string(), r#"{"result":[{"pageId":1,"result":10}]}"#);
    let s = decode(r#"{"result": 7}"#, ResultType::POD);
    assert_eq!(s.to_string(), r#"{"result":7}"#);
    let d = decode(
        r#"{"result":[{"value":3,"timeframe":{"start":"2024-01-01T00:00:00Z","end":"2024-01-02T00:00:00Z"}}]}"#,
        ResultType::DaysPOD,
    );
    assert_eq!(
        d.to_string(),
        r#"{"result":[{"timeframe":{"end":"2024-01-02T00:00:00Z","start":"2024-01-01T00:00:00Z"},"value":3}]}"#
    );
}

#[test]
fn upstream_error_document_reads() {
    let e = KeenError::from_str(r#"{"message":"bad key","error_code":"InvalidApiKeyError"}"#).unwrap();
    assert_eq!(e.description(), "bad key");
    assert_eq!(e.to_text(), "InvalidApiKeyError: bad key");
    assert!(matches!(KeenError::from_str(r#"{"message":"x"}"#), Err(NativeError::ParseError)));
}
