use keenio_batch::{
    CacheQuery, CompressedFields, Instant, Interval, KeySide, Metric, NativeError, StringOrI64,
    Timeframe, parse_instant, ttl_secs,
};

fn query(from: &str, to: &str) -> CacheQuery {
    CacheQuery {
        metric: Metric::CountUnique,
        target: Some("pageId".to_string()),
        interval: Some(Interval::Daily),
        bound: Some((0, 1000000)),
        from: parse_instant(from).unwrap(),
        to: parse_instant(to).unwrap(),
    }
}

#[test]
fn write_side_key_of_a_daily_page_query() {
    let q = query("2024-01-01T00:00:00Z", "2024-01-02T00:00:00Z");
    assert_eq!(
        q.key(KeySide::Write).unwrap(),
        "count_unique.pageId.daily.0~1000000.2024-01-01T00:00:00+00:00~2024-01-02T00:00:00+00:00"
    );
}

#[test]
fn equal_queries_get_equal_keys() {
    let a = query("2024-03-05T10:00:00Z", "2024-03-07T10:00:00Z");
    let b = query("2024-03-05T10:00:00Z", "2024-03-07T10:00:00Z");
    assert_eq!(a.key(KeySide::Write).unwrap(), b.key(KeySide::Write).unwrap());
    assert_eq!(a.key(KeySide::Read).unwrap(), b.key(KeySide::Read).unwrap());
}

#[test]
fn write_side_shifts_late_evening_to_the_next_day() {
    let q = query("2024-01-01T21:00:00Z", "2024-01-02T21:00:00Z");
    assert_eq!(
        q.key(KeySide::Write).unwrap(),
        "count_unique.pageId.daily.0~1000000.2024-01-02T00:00:00+00:00~2024-01-03T00:00:00+00:00"
    );
    assert_eq!(
        q.key(KeySide::Read).unwrap(),
        "count_unique.pageId.daily.0~1000000.2024-01-01T00:00:00+00:00~2024-01-02T00:00:00+00:00"
    );
}

#[test]
fn absent_parts_are_left_out_of_the_key() {
    let q = CacheQuery {
        metric: Metric::Count,
        target: None,
        interval: None,
        bound: None,
        from: Instant { secs: 1704067200, nanos: 0 },
        to: Instant { secs: 1704153600, nanos: 0 },
    };
    assert_eq!(
        q.key(KeySide::Read).unwrap(),
        "count.2024-01-01T00:00:00+00:00~2024-01-02T00:00:00+00:00"
    );
}

#[test]
fn unwritable_day_is_an_invalid_argument() {
    let q = CacheQuery {
        metric: Metric::Count,
        target: None,
        interval: None,
        bound: None,
        from: Instant { secs: i64::MAX, nanos: 0 },
        to: Instant { secs: 0, nanos: 0 },
    };
    assert!(matches!(q.key(KeySide::Write), Err(NativeError::InvalidArgument)));
}

#[test]
fn ttl_depends_on_window_length() {
    let day = 86400;
    assert_eq!(ttl_secs(Instant { secs: 0, nanos: 0 }, Instant { secs: day, nanos: 0 }), 300);
    assert_eq!(ttl_secs(Instant { secs: 0, nanos: 0 }, Instant { secs: 2 * day, nanos: 0 }), 172800);
}

#[test]
fn timestamps_read_with_any_offset() {
    let a = parse_instant("2024-01-01T04:00:00+04:00").unwrap();
    assert_eq!(a, Instant { secs: 1704067200, nanos: 0 });
    let b = parse_instant("2024-01-01T00:00:00.250Z").unwrap();
    assert_eq!(b, Instant { secs: 1704067200, nanos: 250_000_000 });
    assert!(parse_instant("2024-13-01").is_none());
    assert!(Timeframe::new("2024-01-01T00:00:00Z".to_string(), "soon".to_string()).is_none());
}

#[test]
fn fields_insert_get_and_remove() {
    let mut f = CompressedFields::new();
    f.insert("pageId".to_string(), StringOrI64::I64(3));
    f.insert("country".to_string(), StringOrI64::String("DE".to_string()));
    f.insert("pageId".to_string(), StringOrI64::I64(4));
    assert_eq!(f.0.len(), 2);
    assert!(matches!(f.get("pageId"), Some(StringOrI64::I64(4))));
    f.remove("pageId");
    assert!(f.get("pageId").is_none());
    assert!(matches!(f.get("country"), Some(StringOrI64::String(ref s)) if s == "DE"));
}
