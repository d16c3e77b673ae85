//! Bounding a row set before it is cached: per primary key, the largest
//! rows and one row that sums up the rest.
use vstd::prelude::*;
use crate::algebra::{lemma_rows_total_prefix, lemma_rows_total_step, rows_total};
use crate::protocol::{
    CompressedFields, FieldValue, Item, Items, Row, StringOrI64, result_name, rows_of,
};

verus! {

/// How many rows of each partition are kept as they are.
pub const HEAD_N: usize = 30;

pub open spec fn others_text() -> Seq<char> {
    seq!['o', 't', 'h', 'e', 'r', 's']
}

/// The value a row carries under the primary field, if any.
pub open spec fn key_of(row: Row, p: Seq<char>) -> Option<FieldValue> {
    if row.fields.contains_key(p) {
        Some(row.fields[p])
    } else {
        None
    }
}

/// The rows whose primary value is `k`, in order.
pub open spec fn part(rows: Seq<Row>, p: Seq<char>, k: Option<FieldValue>) -> Seq<Row>
    decreases rows.len(),
{
    if rows.len() == 0 {
        Seq::empty()
    } else {
        let init = part(rows.drop_last(), p, k);
        if key_of(rows.last(), p) == k {
            init.push(rows.last())
        } else {
            init
        }
    }
}

/// The primary values of the rows, each once, in order of first appearance.
pub open spec fn keys_of(rows: Seq<Row>, p: Seq<char>) -> Seq<Option<FieldValue>>
    decreases rows.len(),
{
    if rows.len() == 0 {
        Seq::empty()
    } else {
        let init = keys_of(rows.drop_last(), p);
        if init.contains(key_of(rows.last(), p)) {
            init
        } else {
            init.push(key_of(rows.last(), p))
        }
    }
}

/// `s` with `x` placed after every row counting at least as much and before
/// the rest; on `s` sorted by descending count this keeps ties stable.
pub open spec fn insert_desc(s: Seq<Row>, x: Row) -> Seq<Row>
    decreases s.len(),
{
    if s.len() == 0 {
        seq![x]
    } else if s.last().result >= x.result {
        s.push(x)
    } else {
        insert_desc(s.drop_last(), x).push(s.last())
    }
}

/// The rows sorted by descending count, equal counts kept in order.
pub open spec fn sort_desc(s: Seq<Row>) -> Seq<Row>
    decreases s.len(),
{
    if s.len() == 0 {
        s
    } else {
        insert_desc(sort_desc(s.drop_last()), s.last())
    }
}

/// The row that stands for the rows cut off: the partition's primary value,
/// the secondary field set to `"others"`, and their summed count.
pub open spec fn others_row(p: Seq<char>, k: Option<FieldValue>, q: Seq<char>, n: nat) -> Row {
    let base = match k {
        Some(v) => Map::<Seq<char>, FieldValue>::empty().insert(p, v),
        None => Map::<Seq<char>, FieldValue>::empty(),
    };
    Row { result: n, fields: base.insert(q, FieldValue::Text(others_text())) }
}

pub open spec fn head_len(n: int) -> int {
    if n <= HEAD_N as int { n } else { HEAD_N as int }
}

/// A sorted partition cut to its head, followed by the row for the rest
/// where the rest counts more than zero.
pub open spec fn trim_block(s: Seq<Row>, p: Seq<char>, k: Option<FieldValue>, q: Seq<char>) -> Seq<Row> {
    let head = s.subrange(0, head_len(s.len() as int));
    let rest = rows_total(s.subrange(head_len(s.len() as int), s.len() as int));
    if rest == 0 {
        head
    } else {
        head.push(others_row(p, k, q, rest as nat))
    }
}

/// The trimmed partitions of the rows for the keys `keys`, one after the other.
pub open spec fn blocks(rows: Seq<Row>, p: Seq<char>, q: Seq<char>, keys: Seq<Option<FieldValue>>) -> Seq<Row>
    decreases keys.len(),
{
    if keys.len() == 0 {
        Seq::empty()
    } else {
        blocks(rows, p, q, keys.drop_last()) + trim_block(sort_desc(part(rows, p, keys.last())), p, keys.last(), q)
    }
}

/// What pre-trim makes of a row set with primary field `p` and, where there
/// is one, secondary field `q`.
pub open spec fn trimmed(rows: Seq<Row>, p: Seq<char>, q: Option<Seq<char>>) -> Seq<Row> {
    match q {
        Some(q) => blocks(rows, p, q, keys_of(rows, p)),
        None => rows,
    }
}

pub open spec fn opt_view(o: Option<StringOrI64>) -> Option<FieldValue> {
    match o {
        Some(v) => Some(v@),
        None => None,
    }
}

fn key_eq(a: &Option<StringOrI64>, b: &Option<StringOrI64>) -> (r: bool)
    ensures
        r == (opt_view(*a) == opt_view(*b)),
{
    match (a, b) {
        (None, None) => true,
        (Some(StringOrI64::String(x)), Some(StringOrI64::String(y))) => *x == *y,
        (Some(StringOrI64::I64(x)), Some(StringOrI64::I64(y))) => *x == *y,
        (Some(StringOrI64::String(_)), Some(StringOrI64::I64(_))) => false,
        (Some(StringOrI64::I64(_)), Some(StringOrI64::String(_))) => false,
        _ => false,
    }
}

pub open spec fn opt_views(s: Seq<Option<StringOrI64>>) -> Seq<Option<FieldValue>> {
    s.map_values(|o: Option<StringOrI64>| opt_view(o))
}

fn holds_key(keys: &Vec<Option<StringOrI64>>, k: &Option<StringOrI64>) -> (r: bool)
    ensures
        r == opt_views(keys@).contains(opt_view(*k)),
{
    let mut i: usize = 0;
    while i < keys.len()
        invariant
            i <= keys@.len(),
            forall|j: int| 0 <= j < i ==> opt_view(keys@[j]) != opt_view(*k),
        decreases keys@.len() - i,
    {
        if key_eq(&keys[i], k) {
            assert(opt_views(keys@)[i as int] == opt_view(*k));
            return true;
        }
        i = i + 1;
    }
    proof {
        if opt_views(keys@).contains(opt_view(*k)) {
            let j = choose|j: int| 0 <= j < opt_views(keys@).len() && opt_views(keys@)[j] == opt_view(*k);
            assert(opt_view(keys@[j]) == opt_view(*k));
        }
    }
    false
}

fn dup_key(k: &Option<StringOrI64>) -> (r: Option<StringOrI64>)
    ensures
        opt_view(r) == opt_view(*k),
{
    match k {
        Some(v) => Some(v.duplicate()),
        None => None,
    }
}

/// The distinct primary values of the rows, in order of first appearance.
fn collect_keys(items: &Items, primary: &str) -> (r: Vec<Option<StringOrI64>>)
    requires
        items.wf(),
    ensures
        opt_views(r@) == keys_of(items@, primary@),
{
    let mut keys: Vec<Option<StringOrI64>> = Vec::new();
    let mut i: usize = 0;
    while i < items.0.len()
        invariant
            items.wf(),
            i <= items.0@.len(),
            opt_views(keys@) == keys_of(items@.subrange(0, i as int), primary@),
        decreases items.0@.len() - i,
    {
        let ghost sub = items@.subrange(0, i as int + 1);
        proof {
            assert(sub.drop_last() =~= items@.subrange(0, i as int));
            assert(sub.last() == items.0@[i as int]@);
            assert(items.0@[i as int].wf());
        }
        let k = items.0[i].fields.get(primary);
        assert(opt_view(k) == key_of(items.0@[i as int]@, primary@));
        if !holds_key(&keys, &k) {
            let ghost before = keys@;
            keys.push(k);
            assert(opt_views(keys@) =~= opt_views(before).push(opt_view(k)));
        }
        i = i + 1;
    }
    assert(items@.subrange(0, i as int) =~= items@);
    keys
}

/// The rows whose primary value is `k`, in order.
fn collect_part(items: &Items, primary: &str, k: &Option<StringOrI64>) -> (r: Vec<Item>)
    requires
        items.wf(),
    ensures
        rows_of(r@) == part(items@, primary@, opt_view(*k)),
        forall|j: int| 0 <= j < r@.len() ==> #[trigger] r@[j].wf(),
{
    let mut out: Vec<Item> = Vec::new();
    let mut i: usize = 0;
    while i < items.0.len()
        invariant
            items.wf(),
            i <= items.0@.len(),
            rows_of(out@) == part(items@.subrange(0, i as int), primary@, opt_view(*k)),
            forall|j: int| 0 <= j < out@.len() ==> #[trigger] out@[j].wf(),
        decreases items.0@.len() - i,
    {
        let ghost sub = items@.subrange(0, i as int + 1);
        proof {
            assert(sub.drop_last() =~= items@.subrange(0, i as int));
            assert(sub.last() == items.0@[i as int]@);
            assert(items.0@[i as int].wf());
        }
        let key = items.0[i].fields.get(primary);
        assert(opt_view(key) == key_of(items.0@[i as int]@, primary@));
        if key_eq(&key, k) {
            let ghost before = out@;
            out.push(items.0[i].duplicate());
            assert(rows_of(out@) =~= rows_of(before).push(items.0@[i as int]@));
        }
        i = i + 1;
    }
    assert(items@.subrange(0, i as int) =~= items@);
    out
}

proof fn lemma_insert_desc_unfold(pre: Seq<Row>, x: Row)
    requires
        pre.len() > 0,
    ensures
        pre.last().result >= x.result ==> insert_desc(pre, x) == pre.push(x),
        pre.last().result < x.result ==> insert_desc(pre, x) == insert_desc(pre.drop_last(), x).push(pre.last()),
{
}

fn insert_item_desc(out: &mut Vec<Item>, item: Item)
    requires
        forall|j: int| 0 <= j < old(out)@.len() ==> #[trigger] old(out)@[j].wf(),
        item.wf(),
    ensures
        rows_of(final(out)@) == insert_desc(rows_of(old(out)@), item@),
        forall|j: int| 0 <= j < final(out)@.len() ==> #[trigger] final(out)@[j].wf(),
{
    let ghost s = rows_of(out@);
    let ghost x = item@;
    let mut j: usize = out.len();
    let mut done = false;
    assert(s.subrange(0, s.len() as int) =~= s);
    assert(insert_desc(s, x) + s.subrange(s.len() as int, s.len() as int) =~= insert_desc(s, x));
    while !done
        invariant
            s == rows_of(out@),
            x == item@,
            j <= out@.len(),
            insert_desc(s, x) == insert_desc(s.subrange(0, j as int), x) + s.subrange(j as int, s.len() as int),
            done ==> insert_desc(s.subrange(0, j as int), x) == s.subrange(0, j as int).push(x),
        decreases j + (if done { 0int } else { 1int }),
    {
        if j == 0 {
            done = true;
            assert(s.subrange(0, 0) =~= Seq::<Row>::empty());
            assert(insert_desc(s.subrange(0, 0), x) =~= seq![x]);
        } else if out[j - 1].result >= item.result {
            done = true;
            proof {
                assert(s.subrange(0, j as int).last() == s[j - 1]);
                lemma_insert_desc_unfold(s.subrange(0, j as int), x);
            }
        } else {
            proof {
                let pre = s.subrange(0, j as int);
                assert(pre.last() == s[j - 1]);
                assert(pre.drop_last() =~= s.subrange(0, j - 1));
                lemma_insert_desc_unfold(pre, x);
                assert(insert_desc(s.subrange(0, j - 1), x).push(s[j - 1]) + s.subrange(j as int, s.len() as int)
                    =~= insert_desc(s.subrange(0, j - 1), x) + s.subrange(j - 1, s.len() as int));
            }
            j = j - 1;
        }
    }
    let ghost before = out@;
    out.insert(j, item);
    proof {
        assert(rows_of(out@) =~= s.subrange(0, j as int).push(x) + s.subrange(j as int, s.len() as int));
        assert forall|i: int| 0 <= i < out@.len() implies #[trigger] out@[i].wf() by {
            if i < j {
                assert(out@[i] == before[i]);
            } else if i > j {
                assert(out@[i] == before[i - 1]);
            }
        }
    }
}

/// Sorts rows by descending count, equal counts kept in order.
fn sort_items_desc(rows: Vec<Item>) -> (r: Vec<Item>)
    requires
        forall|j: int| 0 <= j < rows@.len() ==> #[trigger] rows@[j].wf(),
    ensures
        rows_of(r@) == sort_desc(rows_of(rows@)),
        forall|j: int| 0 <= j < r@.len() ==> #[trigger] r@[j].wf(),
{
    let ghost all = rows_of(rows@);
    let mut src = rows;
    let mut out: Vec<Item> = Vec::new();
    let mut i: usize = 0;
    let ghost orig = src@;
    let n = src.len();
    assert(orig.len() == n);
    while src.len() > 0
        invariant
            all == rows_of(orig),
            forall|j: int| 0 <= j < orig.len() ==> #[trigger] orig[j].wf(),
            i + src@.len() == orig.len(),
            orig.len() <= usize::MAX,
            src@ == orig.subrange(i as int, orig.len() as int),
            rows_of(out@) == sort_desc(all.subrange(0, i as int)),
            forall|j: int| 0 <= j < out@.len() ==> #[trigger] out@[j].wf(),
        decreases src@.len(),
    {
        let item = src.remove(0);
        proof {
            assert(item == orig[i as int]);
            assert(orig[i as int].wf());
            let sub = all.subrange(0, i as int + 1);
            assert(sub.drop_last() =~= all.subrange(0, i as int));
            assert(sub.last() == item@);
        }
        insert_item_desc(&mut out, item);
        i = i + 1;
        assert(src@ =~= orig.subrange(i as int, orig.len() as int));
    }
    assert(all.subrange(0, i as int) =~= all);
    out
}

pub proof fn lemma_rows_total_split(s: Seq<Row>, a: int, b: int)
    requires
        0 <= a <= b <= s.len(),
    ensures
        rows_total(s.subrange(0, b)) == rows_total(s.subrange(0, a)) + rows_total(s.subrange(a, b)),
    decreases b - a,
{
    if a == b {
        assert(s.subrange(a, b) =~= Seq::<Row>::empty());
    } else {
        lemma_rows_total_split(s, a, b - 1);
        lemma_rows_total_step(s, b - 1);
        assert(s.subrange(a, b).drop_last() =~= s.subrange(a, b - 1));
        assert(s.subrange(a, b).last() == s[b - 1]);
    }
}

pub proof fn lemma_part_total(rows: Seq<Row>, p: Seq<char>, k: Option<FieldValue>)
    ensures
        0 <= rows_total(part(rows, p, k)) <= rows_total(rows),
    decreases rows.len(),
{
    if rows.len() > 0 {
        lemma_part_total(rows.drop_last(), p, k);
        let init = part(rows.drop_last(), p, k);
        if key_of(rows.last(), p) == k {
            assert(init.push(rows.last()).drop_last() =~= init);
        }
    }
}

pub proof fn lemma_insert_desc_total(s: Seq<Row>, x: Row)
    ensures
        rows_total(insert_desc(s, x)) == rows_total(s) + x.result,
    decreases s.len(),
{
    if s.len() == 0 {
        assert(seq![x].drop_last() =~= Seq::<Row>::empty());
        assert(seq![x].last() == x);
        assert(rows_total(seq![x]) == rows_total(Seq::<Row>::empty()) + x.result);
    } else if s.last().result >= x.result {
        assert(s.push(x).drop_last() =~= s);
        assert(s.push(x).last() == x);
    } else {
        lemma_insert_desc_total(s.drop_last(), x);
        let t = insert_desc(s.drop_last(), x);
        assert(t.push(s.last()).drop_last() =~= t);
        assert(t.push(s.last()).last() == s.last());
        assert(insert_desc(s, x) == t.push(s.last()));
    }
}

pub proof fn lemma_sort_desc_total(s: Seq<Row>)
    ensures
        rows_total(sort_desc(s)) == rows_total(s),
    decreases s.len(),
{
    if s.len() > 0 {
        lemma_sort_desc_total(s.drop_last());
        lemma_insert_desc_total(sort_desc(s.drop_last()), s.last());
    }
}

/// Appends the trimmed form of a sorted partition to `out`.
fn push_trimmed(
    out: &mut Vec<Item>,
    sorted: &Vec<Item>,
    primary: &str,
    k: &Option<StringOrI64>,
    secondary: &str,
)
    requires
        forall|j: int| 0 <= j < old(out)@.len() ==> #[trigger] old(out)@[j].wf(),
        forall|j: int| 0 <= j < sorted@.len() ==> #[trigger] sorted@[j].wf(),
        rows_total(rows_of(sorted@)) <= u64::MAX,
        primary@ != result_name(),
        secondary@ != result_name(),
    ensures
        rows_of(final(out)@) == rows_of(old(out)@) + trim_block(rows_of(sorted@), primary@, opt_view(*k), secondary@),
        forall|j: int| 0 <= j < final(out)@.len() ==> #[trigger] final(out)@[j].wf(),
{
    let ghost s = rows_of(sorted@);
    let ghost start = rows_of(out@);
    let n = sorted.len();
    let h: usize = if n <= HEAD_N { n } else { HEAD_N };
    let mut i: usize = 0;
    while i < h
        invariant
            s == rows_of(sorted@),
            forall|j: int| 0 <= j < sorted@.len() ==> #[trigger] sorted@[j].wf(),
            h <= sorted@.len(),
            i <= h,
            rows_of(out@) =~= start + s.subrange(0, i as int),
            forall|j: int| 0 <= j < out@.len() ==> #[trigger] out@[j].wf(),
        decreases h - i,
    {
        assert(sorted@[i as int].wf());
        let ghost before = out@;
        out.push(sorted[i].duplicate());
        assert(rows_of(out@) =~= rows_of(before).push(s[i as int]));
        i = i + 1;
    }
    let mut rest: u64 = 0;
    let mut j: usize = h;
    while j < n
        invariant
            s == rows_of(sorted@),
            n == sorted@.len(),
            h <= j <= n,
            rows_total(s) <= u64::MAX,
            rest == rows_total(s.subrange(h as int, j as int)),
        decreases n - j,
    {
        proof {
            lemma_rows_total_split(s, h as int, j as int + 1);
            lemma_rows_total_split(s, h as int, j as int);
            lemma_rows_total_step(s, j as int);
            lemma_rows_total_prefix(s, j as int + 1);
            lemma_rows_total_prefix(s, h as int);
            assert(s[j as int].result == sorted@[j as int].result);
        }
        rest = rest + sorted[j].result;
        j = j + 1;
    }
    assert(h as int == head_len(s.len() as int));
    if rest != 0 {
        let mut fields = CompressedFields::new();
        match k {
            Some(v) => fields.insert(primary.to_owned(), v.duplicate()),
            None => {},
        }
        proof {
            reveal_strlit("others");
        }
        let text = "others".to_owned();
        assert(text@ =~= others_text());
        fields.insert(secondary.to_owned(), StringOrI64::String(text));
        let others = Item { result: rest, fields };
        proof {
            let base = match opt_view(*k) {
                Some(v) => Map::<Seq<char>, FieldValue>::empty().insert(primary@, v),
                None => Map::<Seq<char>, FieldValue>::empty(),
            };
            assert(others.fields@ == base.insert(secondary@, FieldValue::Text(others_text())));
            assert(others@ == others_row(primary@, opt_view(*k), secondary@, rest as nat));
        }
        let ghost before = out@;
        out.push(others);
        assert(rows_of(out@) =~= rows_of(before).push(others@));
    }
}

pub open spec fn opt_name(q: Option<&str>) -> Option<Seq<char>> {
    match q {
        Some(s) => Some(s@),
        None => None,
    }
}

impl Items {
    /// Bounds a row set before it is cached. Rows are grouped by their value
    /// of `primary`, groups in order of first appearance; each group is
    /// sorted by descending count, its first thirty rows are kept, and the
    /// rest, where they count more than zero, become one row with the group's
    /// primary value, `secondary` set to `"others"` and their summed count.
    /// Without a secondary field the rows stay as they are.
    pub fn pre_trim(self, primary: &str, secondary: Option<&str>) -> (r: Items)
        requires
            self.wf(),
            rows_total(self@) <= u64::MAX,
            primary@ != result_name(),
            secondary matches Some(q) ==> q@ != result_name() && q@ != primary@,
        ensures
            r@ == trimmed(self@, primary@, opt_name(secondary)),
            r.wf(),
    {
        match secondary {
            None => self,
            Some(q) => {
                let keys = collect_keys(&self, primary);
                let mut out: Vec<Item> = Vec::new();
                let mut j: usize = 0;
                while j < keys.len()
                    invariant
                        self.wf(),
                        rows_total(self@) <= u64::MAX,
                        primary@ != result_name(),
                        q@ != result_name(),
                        opt_views(keys@) == keys_of(self@, primary@),
                        j <= keys@.len(),
                        rows_of(out@) == blocks(self@, primary@, q@, opt_views(keys@).subrange(0, j as int)),
                        forall|i: int| 0 <= i < out@.len() ==> #[trigger] out@[i].wf(),
                    decreases keys@.len() - j,
                {
                    let part_items = collect_part(&self, primary, &keys[j]);
                    let sorted = sort_items_desc(part_items);
                    proof {
                        let kv = opt_view(keys@[j as int]);
                        lemma_part_total(self@, primary@, kv);
                        lemma_sort_desc_total(part(self@, primary@, kv));
                        let ks = opt_views(keys@).subrange(0, j as int + 1);
                        assert(ks.drop_last() =~= opt_views(keys@).subrange(0, j as int));
                        assert(ks.last() == kv);
                    }
                    push_trimmed(&mut out, &sorted, primary, &keys[j], q);
                    j = j + 1;
                }
                assert(opt_views(keys@).subrange(0, j as int) =~= keys_of(self@, primary@));
                Items(out)
            },
        }
    }
}

} // verus!
