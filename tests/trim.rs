use keenio_batch::{KeenResult, Payload, ResultType, StringOrI64};

fn rows(text: &str) -> keenio_batch::Items {
    match KeenResult::from_str(text, ResultType::Items) {
        Ok(KeenResult { result: Payload::Items(items) }) => items,
        _ => panic!("not rows"),
    }
}

fn row_json(result: u64, page: i64, country: &str) -> String {
    format!(r#"{{"result":{},"pageId":{},"country":"{}"}}"#, result, page, country)
}

fn total_for(items: &keenio_batch::Items, page: i64) -> u64 {
    items
        .0
        .iter()
        .filter(|i| matches!(i.fields.get("pageId"), Some(StringOrI64::I64(p)) if p == page))
        .map(|i| i.result)
        .sum()
}

#[test]
fn long_partition_keeps_thirty_rows_and_one_for_the_rest() {
    let mut parts: Vec<String> = (70..=100u64).rev().map(|n| row_json(n, 1, &format!("c{}", n))).collect();
    parts.push(row_json(5, 1, "c5"));
    let text = format!(r#"{{"result":[{}]}}"#, parts.join(","));
    let trimmed = rows(&text).pre_trim("pageId", Some("country"));
    assert_eq!(trimmed.0.len(), 31);
    let head: u64 = trimmed.0[..30].iter().map(|i| i.result).sum();
    assert_eq!(head, (71..=100u64).sum::<u64>());
    let last = &trimmed.0[30];
    assert_eq!(last.result, 75);
    assert!(matches!(last.fields.get("country"), Some(StringOrI64::String(ref s)) if s == "others"));
    assert!(matches!(last.fields.get("pageId"), Some(StringOrI64::I64(1))));
}

#[test]
fn partition_sums_survive_pre_trim() {
    let mut parts: Vec<String> = (1..=40u64).map(|n| row_json(n, 1, &format!("a{}", n))).collect();
    parts.extend((1..=3u64).map(|n| row_json(10 * n, 2, &format!("b{}", n))));
    let text = format!(r#"{{"result":[{}]}}"#, parts.join(","));
    let before = rows(&text);
    let t1 = total_for(&before, 1);
    let t2 = total_for(&before, 2);
    let trimmed = rows(&text).pre_trim("pageId", Some("country"));
    assert_eq!(trimmed.0.len(), 31 + 3);
    assert_eq!(total_for(&trimmed, 1), t1);
    assert_eq!(total_for(&trimmed, 2), t2);
    assert_eq!(trimmed.0[0].result, 40);
    assert_eq!(trimmed.0[31].result, 30);
}

#[test]
fn single_row_partition_is_unchanged() {
    let text = format!(r#"{{"result":[{}]}}"#, row_json(9, 4, "DE"));
    let trimmed = rows(&text).pre_trim("pageId", Some("country"));
    assert_eq!(trimmed.0.len(), 1);
    assert_eq!(trimmed.0[0].result, 9);
    assert!(matches!(trimmed.0[0].fields.get("country"), Some(StringOrI64::String(ref s)) if s == "DE"));
}

#[test]
fn without_secondary_field_pre_trim_does_nothing() {
    let parts: Vec<String> = (1..=40u64).map(|n| row_json(n, 1, "DE")).collect();
    let text = format!(r#"{{"result":[{}]}}"#, parts.join(","));
    let trimmed = rows(&text).pre_trim("pageId", None);
    assert_eq!(trimmed.0.len(), 40);
    assert_eq!(trimmed.0[0].result, 1);
}

#[test]
fn empty_row_set_stays_empty() {
    let trimmed = rows(r#"{"result":[]}"#).pre_trim("pageId", Some("country"));
    assert_eq!(trimmed.0.len(), 0);
}
