//! The result documents of the analytics service: rows, buckets and the
//! four shapes a result takes.
use vstd::prelude::*;
use crate::time::{Instant, instant_of, utc_instant, parse_instant};

verus! {

/// A grouping value as the library reasons about it.
pub enum FieldValue {
    Text(Seq<char>),
    Int(int),
}

pub open spec fn digit_char(d: int) -> char {
    if d == 0 { '0' } else if d == 1 { '1' } else if d == 2 { '2' } else if d == 3 { '3' }
    else if d == 4 { '4' } else if d == 5 { '5' } else if d == 6 { '6' } else if d == 7 { '7' }
    else if d == 8 { '8' } else { '9' }
}

/// The decimal digits of a natural number, without leading zeros.
pub open spec fn digits(n: nat) -> Seq<char>
    decreases n,
{
    if n < 10 {
        seq![digit_char(n as int)]
    } else {
        digits(n / 10).push(digit_char((n % 10) as int))
    }
}

/// The decimal text of an integer, with `-` before a negative one.
pub open spec fn decimal(n: int) -> Seq<char> {
    if n < 0 {
        seq!['-'] + digits((-n) as nat)
    } else {
        digits(n as nat)
    }
}

/// Relies on the `Display` of `i128`: decimal digits, `-` before a negative number.
#[verifier::external_body]
pub(crate) fn decimal_text(n: i128) -> (r: String)
    ensures
        r@ == decimal(n as int),
{
    n.to_string()
}

/// Equality of grouping values: an integer equals the text of its decimal digits.
pub open spec fn same_value(a: FieldValue, b: FieldValue) -> bool {
    match (a, b) {
        (FieldValue::Int(i), FieldValue::Int(j)) => i == j,
        (FieldValue::Int(i), FieldValue::Text(t)) => decimal(i) == t,
        (FieldValue::Text(s), FieldValue::Int(j)) => s == decimal(j),
        (FieldValue::Text(s), FieldValue::Text(t)) => s == t,
    }
}

/// A grouping value: the service sends numeric ids as numbers or as text.
#[derive(Debug)]
pub enum StringOrI64 {
    String(String),
    I64(i64),
}

impl View for StringOrI64 {
    type V = FieldValue;

    open spec fn view(&self) -> FieldValue {
        match self {
            StringOrI64::String(s) => FieldValue::Text(s@),
            StringOrI64::I64(n) => FieldValue::Int(*n as int),
        }
    }
}

impl StringOrI64 {
    pub fn duplicate(&self) -> (r: StringOrI64)
        ensures
            r@ == self@,
    {
        match self {
            StringOrI64::String(s) => StringOrI64::String(s.clone()),
            StringOrI64::I64(n) => StringOrI64::I64(*n),
        }
    }

    pub fn same_as(&self, other: &StringOrI64) -> (r: bool)
        ensures
            r == same_value(self@, other@),
    {
        match (self, other) {
            (StringOrI64::I64(i), StringOrI64::I64(j)) => *i == *j,
            (StringOrI64::I64(i), StringOrI64::String(t)) => decimal_text(*i as i128) == *t,
            (StringOrI64::String(s), StringOrI64::I64(j)) => *s == decimal_text(*j as i128),
            (StringOrI64::String(s), StringOrI64::String(t)) => *s == *t,
        }
    }
}

impl PartialEq for StringOrI64 {
    fn eq(&self, other: &StringOrI64) -> (r: bool) {
        self.same_as(other)
    }
}

impl vstd::std_specs::cmp::PartialEqSpecImpl for StringOrI64 {
    open spec fn obeys_eq_spec() -> bool {
        true
    }

    open spec fn eq_spec(&self, other: &StringOrI64) -> bool {
        same_value(self@, other@)
    }
}

/// The keys of a list of named entries are distinct.
pub open spec fn distinct_names<V>(s: Seq<(String, V)>) -> bool {
    forall|i: int, j: int|
        0 <= i < s.len() && 0 <= j < s.len() && i != j ==> s[i].0@ != s[j].0@
}

pub open spec fn has_name<V>(s: Seq<(String, V)>, k: Seq<char>) -> bool {
    exists|i: int| 0 <= i < s.len() && s[i].0@ == k
}

pub open spec fn found_before(s: Seq<(String, StringOrI64)>, n: int, e: (String, StringOrI64)) -> bool {
    exists|m: int| 0 <= m < n && s[m].0@ == e.0@ && s[m].1@ == e.1@
}

/// The grouping fields of a row other than its `result`, kept as a flat list
/// of distinct names.
#[derive(Debug)]
pub struct CompressedFields(pub Vec<(String, StringOrI64)>);

impl View for CompressedFields {
    type V = Map<Seq<char>, FieldValue>;

    open spec fn view(&self) -> Map<Seq<char>, FieldValue> {
        Map::new(
            |k: Seq<char>| has_name(self.0@, k),
            |k: Seq<char>| self.0@[choose|i: int| 0 <= i < self.0@.len() && self.0@[i].0@ == k].1@,
        )
    }
}

impl CompressedFields {
    pub open spec fn wf(&self) -> bool {
        distinct_names(self.0@)
    }

    pub proof fn lemma_entry(&self, i: int)
        requires
            self.wf(),
            0 <= i < self.0@.len(),
        ensures
            self@.contains_key(self.0@[i].0@),
            self@[self.0@[i].0@] == self.0@[i].1@,
    {
        let k = self.0@[i].0@;
        assert(has_name(self.0@, k));
        let j = choose|j: int| 0 <= j < self.0@.len() && self.0@[j].0@ == k;
        assert(j == i);
    }

    pub fn new() -> (r: CompressedFields)
        ensures
            r.wf(),
            r@ == Map::<Seq<char>, FieldValue>::empty(),
    {
        let r = CompressedFields(Vec::new());
        assert(r@ =~= Map::<Seq<char>, FieldValue>::empty());
        r
    }

    pub fn duplicate(&self) -> (r: CompressedFields)
        requires
            self.wf(),
        ensures
            r.wf(),
            r@ == self@,
    {
        let mut out: Vec<(String, StringOrI64)> = Vec::new();
        let mut i: usize = 0;
        while i < self.0.len()
            invariant
                self.wf(),
                i <= self.0@.len(),
                out@.len() == i,
                forall|j: int| 0 <= j < i ==> (#[trigger] out@[j]).0@ == self.0@[j].0@ && out@[j].1@ == self.0@[j].1@,
            decreases self.0@.len() - i,
        {
            out.push((self.0[i].0.clone(), self.0[i].1.duplicate()));
            i = i + 1;
        }
        let r = CompressedFields(out);
        proof {
            assert forall|k: Seq<char>| #[trigger] r@.contains_key(k) <==> self@.contains_key(k) by {
                if has_name(r.0@, k) {
                    let j = choose|j: int| 0 <= j < r.0@.len() && r.0@[j].0@ == k;
                    assert(self.0@[j].0@ == k);
                }
                if has_name(self.0@, k) {
                    let j = choose|j: int| 0 <= j < self.0@.len() && self.0@[j].0@ == k;
                    assert(r.0@[j].0@ == k);
                }
            }
            assert forall|k: Seq<char>| #[trigger] r@.contains_key(k) implies r@[k] == self@[k] by {
                let j = choose|j: int| 0 <= j < r.0@.len() && r.0@[j].0@ == k;
                r.lemma_entry(j);
                self.lemma_entry(j);
            }
            assert(r@ =~= self@);
        }
        r
    }

    /// Stores `value` under `key`, in place of any value there.
    pub fn insert(&mut self, key: String, value: StringOrI64)
        requires
            old(self).wf(),
        ensures
            final(self).wf(),
            final(self)@ == old(self)@.insert(key@, value@),
    {
        self.remove(key.as_str());
        let ghost before = self.0@;
        let ghost mid = self@;
        let ghost k = key@;
        self.0.push((key, value));
        proof {
            assert(!mid.contains_key(k));
            assert forall|i: int, j: int| 0 <= i < self.0@.len() && 0 <= j < self.0@.len() && i != j
                implies self.0@[i].0@ != self.0@[j].0@ by {
                if i == before.len() as int && j < before.len() {
                    assert(self.0@[j] == before[j]);
                    assert(has_name(before, before[j].0@));
                } else if j == before.len() as int && i < before.len() {
                    assert(self.0@[i] == before[i]);
                    assert(has_name(before, before[i].0@));
                } else {
                    assert(self.0@[i] == before[i]);
                    assert(self.0@[j] == before[j]);
                }
            }
            assert forall|k2: Seq<char>| #[trigger] self@.contains_key(k2) <==> mid.insert(k, value@).contains_key(k2) by {
                if has_name(self.0@, k2) && k2 != k {
                    let i = choose|i: int| 0 <= i < self.0@.len() && self.0@[i].0@ == k2;
                    assert(self.0@[i] == before[i]);
                    assert(has_name(before, k2));
                }
                if mid.contains_key(k2) {
                    let i = choose|i: int| 0 <= i < before.len() && before[i].0@ == k2;
                    assert(self.0@[i] == before[i]);
                }
                if k2 == k {
                    assert(self.0@[before.len() as int].0@ == k);
                }
            }
            assert forall|k2: Seq<char>| #[trigger] self@.contains_key(k2) implies self@[k2] == mid.insert(k, value@)[k2] by {
                let i = choose|i: int| 0 <= i < self.0@.len() && self.0@[i].0@ == k2;
                self.lemma_entry(i);
                if i < before.len() {
                    assert(self.0@[i] == before[i]);
                    assert(has_name(before, k2));
                    let j = choose|j: int| 0 <= j < before.len() && before[j].0@ == k2;
                    assert(j == i);
                }
            }
            assert(self@ =~= mid.insert(k, value@));
        }
    }

    /// The value stored under `key`.
    pub fn get(&self, key: &str) -> (r: Option<StringOrI64>)
        requires
            self.wf(),
        ensures
            match r {
                Some(v) => self@.contains_key(key@) && v@ == self@[key@],
                None => !self@.contains_key(key@),
            },
    {
        let k = key.to_owned();
        let mut i: usize = 0;
        while i < self.0.len()
            invariant
                self.wf(),
                k@ == key@,
                i <= self.0@.len(),
                forall|j: int| 0 <= j < i ==> self.0@[j].0@ != key@,
            decreases self.0@.len() - i,
        {
            if self.0[i].0 == k {
                proof {
                    self.lemma_entry(i as int);
                }
                return Some(self.0[i].1.duplicate());
            }
            i = i + 1;
        }
        None
    }

    /// Removes the value stored under `key`, if any.
    pub fn remove(&mut self, key: &str)
        requires
            old(self).wf(),
        ensures
            final(self).wf(),
            final(self)@ == old(self)@.remove(key@),
    {
        let k = key.to_owned();
        let ghost before = old(self).0@;
        let mut kept: Vec<(String, StringOrI64)> = Vec::new();
        let mut i: usize = 0;
        while i < self.0.len()
            invariant
                self.0@ == before,
                distinct_names(before),
                k@ == key@,
                i <= before.len(),
                distinct_names(kept@),
                forall|j: int| 0 <= j < kept@.len() ==> kept@[j].0@ != key@,
                forall|j: int| 0 <= j < kept@.len() ==> found_before(before, i as int, #[trigger] kept@[j]),
                forall|m: int| 0 <= m < i && before[m].0@ != key@ ==> has_name(kept@, #[trigger] before[m].0@),
            decreases before.len() - i,
        {
            if self.0[i].0 != k {
                let name = self.0[i].0.clone();
                let value = self.0[i].1.duplicate();
                proof {
                    assert forall|j: int| 0 <= j < kept@.len() implies kept@[j].0@ != before[i as int].0@ by {
                        assert(found_before(before, i as int, kept@[j]));
                        let m = choose|m: int| 0 <= m < i && before[m].0@ == kept@[j].0@ && before[m].1@ == kept@[j].1@;
                        assert(m != i);
                    }
                }
                let ghost old_kept = kept@;
                kept.push((name, value));
                proof {
                    assert forall|m: int| 0 <= m < i + 1 && before[m].0@ != key@ implies has_name(kept@, #[trigger] before[m].0@) by {
                        if m < i {
                            let j = choose|j: int| 0 <= j < old_kept.len() && old_kept[j].0@ == before[m].0@;
                            assert(kept@[j] == old_kept[j]);
                        } else {
                            assert(kept@[old_kept.len() as int].0@ == before[m].0@);
                        }
                    }
                    assert forall|j: int| 0 <= j < kept@.len() implies found_before(before, i + 1, #[trigger] kept@[j]) by {
                        if j < old_kept.len() {
                            assert(kept@[j] == old_kept[j]);
                            assert(found_before(before, i as int, old_kept[j]));
                        } else {
                            assert(before[i as int].0@ == kept@[j].0@);
                        }
                    }
                }
            }
            i = i + 1;
        }
        let ghost old_map = old(self)@;
        self.0 = kept;
        proof {
            assert forall|k2: Seq<char>| #[trigger] self@.contains_key(k2) <==> old_map.remove(key@).contains_key(k2) by {
                if self@.contains_key(k2) {
                    let j = choose|j: int| 0 <= j < kept@.len() && kept@[j].0@ == k2;
                    assert(found_before(before, before.len() as int, kept@[j]));
                    let m = choose|m: int| 0 <= m < before.len() && before[m].0@ == kept@[j].0@ && before[m].1@ == kept@[j].1@;
                    assert(has_name(before, k2));
                }
                if old_map.remove(key@).contains_key(k2) {
                    let m = choose|m: int| 0 <= m < before.len() && before[m].0@ == k2;
                    assert(has_name(kept@, before[m].0@));
                }
            }
            assert forall|k2: Seq<char>| #[trigger] self@.contains_key(k2) implies self@[k2] == old_map.remove(key@)[k2] by {
                let j = choose|j: int| 0 <= j < kept@.len() && kept@[j].0@ == k2;
                self.lemma_entry(j);
                assert(found_before(before, before.len() as int, kept@[j]));
                let m = choose|m: int| 0 <= m < before.len() && before[m].0@ == kept@[j].0@ && before[m].1@ == kept@[j].1@;
                old(self).lemma_entry(m);
            }
            assert(self@ =~= old_map.remove(key@));
        }
    }
}

/// A grouped count: a non-negative `result` and the grouping fields.
pub struct Row {
    pub result: nat,
    pub fields: Map<Seq<char>, FieldValue>,
}

/// One grouped count of a row set.
#[derive(Debug)]
pub struct Item {
    pub result: u64,
    pub fields: CompressedFields,
}

impl View for Item {
    type V = Row;

    open spec fn view(&self) -> Row {
        Row { result: self.result as nat, fields: self.fields@ }
    }
}

/// The name under which a row carries its count.
pub open spec fn result_name() -> Seq<char> {
    seq!['r', 'e', 's', 'u', 'l', 't']
}

impl Item {
    /// Distinct field names, none of them `result`, and a non-zero count.
    pub open spec fn wf(&self) -> bool {
        &&& self.fields.wf()
        &&& !self.fields@.contains_key(result_name())
        &&& self.result != 0
    }
}

/// The rows of a row set, in the service's order.
#[derive(Debug)]
pub struct Items(pub Vec<Item>);

pub open spec fn rows_of(s: Seq<Item>) -> Seq<Row> {
    s.map_values(|i: Item| i@)
}

impl View for Items {
    type V = Seq<Row>;

    open spec fn view(&self) -> Seq<Row> {
        rows_of(self.0@)
    }
}

impl Item {
    pub fn duplicate(&self) -> (r: Item)
        requires
            self.fields.wf(),
        ensures
            r@ == self@,
            r.fields.wf(),
    {
        Item { result: self.result, fields: self.fields.duplicate() }
    }
}

impl Items {
    pub open spec fn wf(&self) -> bool {
        forall|i: int| 0 <= i < self.0@.len() ==> #[trigger] self.0@[i].wf()
    }

    pub fn duplicate(&self) -> (r: Items)
        requires
            self.wf(),
        ensures
            r@ == self@,
            r.wf(),
    {
        let mut out: Vec<Item> = Vec::new();
        let mut i: usize = 0;
        while i < self.0.len()
            invariant
                self.wf(),
                i <= self.0@.len(),
                rows_of(out@) =~= rows_of(self.0@).subrange(0, i as int),
                forall|j: int| 0 <= j < out@.len() ==> #[trigger] out@[j].wf(),
            decreases self.0@.len() - i,
        {
            assert(self.0@[i as int].wf());
            let ghost before = out@;
            out.push(self.0[i].duplicate());
            assert(rows_of(out@) =~= rows_of(before).push(self.0@[i as int]@));
            assert(rows_of(self.0@).subrange(0, i as int + 1) =~= rows_of(self.0@).subrange(0, i as int).push(self.0@[i as int]@));
            i = i + 1;
        }
        assert(rows_of(out@) =~= rows_of(self.0@));
        Items(out)
    }
}

/// A time window as the library reasons about it: the two texts and the
/// instants they denote.
pub struct Window {
    pub start: Seq<char>,
    pub end: Seq<char>,
    pub from: Instant,
    pub to: Instant,
}

/// The time window of a bucket, as the service wrote it.
#[derive(Debug)]
pub struct Timeframe {
    pub start: String,
    pub end: String,
    pub start_at: Instant,
    pub end_at: Instant,
}

impl View for Timeframe {
    type V = Window;

    open spec fn view(&self) -> Window {
        Window { start: self.start@, end: self.end@, from: self.start_at, to: self.end_at }
    }
}

/// Both texts of the window are timestamps, and the instants are theirs.
pub open spec fn window_wf(w: Window) -> bool {
    &&& instant_of(utc_instant(w.start)) == Some(w.from)
    &&& instant_of(utc_instant(w.end)) == Some(w.to)
}

impl Timeframe {
    /// A window from two timestamps; `None` where one of them is not one.
    pub fn new(start: String, end: String) -> (r: Option<Timeframe>)
        ensures
            match r {
                Some(t) => t.start@ == start@ && t.end@ == end@ && window_wf(t@),
                None => instant_of(utc_instant(start@)) is None || instant_of(utc_instant(end@)) is None,
            },
    {
        let start_at = parse_instant(start.as_str());
        let end_at = parse_instant(end.as_str());
        match (start_at, end_at) {
            (Some(a), Some(b)) => Some(Timeframe { start, end, start_at: a, end_at: b }),
            _ => None,
        }
    }

    pub fn duplicate(&self) -> (r: Timeframe)
        ensures
            r@ == self@,
    {
        Timeframe {
            start: self.start.clone(),
            end: self.end.clone(),
            start_at: self.start_at,
            end_at: self.end_at,
        }
    }
}

/// A bucket: the value counted over one time window.
#[derive(Debug)]
pub struct Day<V> {
    pub value: V,
    pub timeframe: Timeframe,
}

pub open spec fn pod_days(s: Seq<Day<i64>>) -> Seq<(Window, int)> {
    s.map_values(|d: Day<i64>| (d.timeframe@, d.value as int))
}

pub open spec fn item_days(s: Seq<Day<Items>>) -> Seq<(Window, Seq<Row>)> {
    s.map_values(|d: Day<Items>| (d.timeframe@, d.value@))
}

/// The value a result carries, in one of four shapes.
#[derive(Debug)]
pub enum Payload {
    Pod(i64),
    Items(Items),
    DaysPod(Vec<Day<i64>>),
    DaysItems(Vec<Day<Items>>),
}

/// A result as the library reasons about it.
pub enum Shape {
    Scalar(int),
    Rows(Seq<Row>),
    ScalarBuckets(Seq<(Window, int)>),
    RowBuckets(Seq<(Window, Seq<Row>)>),
}

/// The four shapes by name, as a caller asks for one.
#[derive(Clone, Copy, Debug, PartialEq, Eq, Structural)]
pub enum ResultType {
    POD,
    Items,
    DaysPOD,
    DaysItems,
}

pub open spec fn shape_type(s: Shape) -> ResultType {
    match s {
        Shape::Scalar(_) => ResultType::POD,
        Shape::Rows(_) => ResultType::Items,
        Shape::ScalarBuckets(_) => ResultType::DaysPOD,
        Shape::RowBuckets(_) => ResultType::DaysItems,
    }
}

/// A result document: `{"result": ...}`.
#[derive(Debug)]
pub struct KeenResult {
    pub result: Payload,
}

impl View for KeenResult {
    type V = Shape;

    open spec fn view(&self) -> Shape {
        match self.result {
            Payload::Pod(n) => Shape::Scalar(n as int),
            Payload::Items(items) => Shape::Rows(items@),
            Payload::DaysPod(days) => Shape::ScalarBuckets(pod_days(days@)),
            Payload::DaysItems(days) => Shape::RowBuckets(item_days(days@)),
        }
    }
}

impl KeenResult {
    /// Rows are well formed and windows hold timestamps.
    pub open spec fn wf(&self) -> bool {
        match self.result {
            Payload::Pod(_) => true,
            Payload::Items(items) => items.wf(),
            Payload::DaysPod(days) => forall|i: int|
                0 <= i < days@.len() ==> window_wf(#[trigger] days@[i].timeframe@),
            Payload::DaysItems(days) => forall|i: int|
                0 <= i < days@.len() ==> window_wf(#[trigger] days@[i].timeframe@) && days@[i].value.wf(),
        }
    }

    pub fn result_type(&self) -> (r: ResultType)
        ensures
            r == shape_type(self@),
    {
        match self.result {
            Payload::Pod(_) => ResultType::POD,
            Payload::Items(_) => ResultType::Items,
            Payload::DaysPod(_) => ResultType::DaysPOD,
            Payload::DaysItems(_) => ResultType::DaysItems,
        }
    }
}

/// The error document of the service: `{"message": ..., "error_code": ...}`.
#[derive(Debug)]
pub struct KeenError {
    pub message: String,
    pub error_code: String,
}

impl KeenError {
    /// The message alone.
    pub fn description(&self) -> (r: &str)
        ensures
            r@ == self.message@,
    {
        self.message.as_str()
    }

    /// `<error_code>: <message>`.
    pub fn to_text(&self) -> (r: String)
        ensures
            r@ == self.error_code@ + seq![':', ' '] + self.message@,
    {
        let mut s = self.error_code.clone();
        s.append(": ");
        proof {
            reveal_strlit(": ");
        }
        s.append(self.message.as_str());
        s
    }
}

} // verus!
