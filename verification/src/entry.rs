//! The data model: entries, day-level locks, and the spec-level view of the
//! store as a sequence of entry records.
//!
//! An entry is one dated, tagged, fixed-point observation. Values are kept
//! as signed integers in a caller-chosen fixed-point scale (for instance
//! hundredths of a currency unit); report totals are widened to `i128` so
//! that no sum of `i64` values can overflow them.

use vstd::prelude::*;
use crate::lex::lex_lt;

verus! {

/// Errors raised by the entry store.
#[derive(Clone, Copy, Debug, PartialEq, Eq, Structural)]
pub enum StoreError {
    /// A whole-day write was attempted on a locked day.
    DayLocked,
    /// A single-entry update was attempted on an entry of a locked day.
    EntryLocked,
    /// No entry carries the requested identity.
    NotFound,
}

impl StoreError {
    /// The human-readable message surfaced to the calling layer.
    pub fn message(&self) -> (m: &'static str)
        ensures
            self is DayLocked ==> m@ == "Day is locked"@,
            self is EntryLocked ==> m@ == "Cannot edit locked entry"@,
            self is NotFound ==> m@ == "Entry not found"@,
    {
        match self {
            StoreError::DayLocked => "Day is locked",
            StoreError::EntryLocked => "Cannot edit locked entry",
            StoreError::NotFound => "Entry not found",
        }
    }
}

/// The view of an optional text field.
pub open spec fn opt_text(d: Option<String>) -> Option<Seq<char>> {
    match d {
        Some(s) => Some(s@),
        None => None,
    }
}

/// Mathematical model of one stored entry.
pub struct EntryModel {
    pub id: int,
    pub date: Seq<char>,
    pub tag: Seq<char>,
    pub value: int,
    pub locked: bool,
    pub description: Option<Seq<char>>,
}

/// One persisted entry row.
#[derive(Debug)]
pub struct Entry {
    /// Identity assigned by the store; unique and increasing in store order.
    pub id: i64,
    /// Day the observation belongs to, as an ISO `YYYY-MM-DD` string.
    pub date: String,
    /// Free-text label categorizing the observation.
    pub tag: String,
    /// Fixed-point value in a caller-chosen scale.
    pub value: i64,
    /// Whether the entry's day has been locked.
    pub locked: bool,
    /// Optional free-text note.
    pub description: Option<String>,
}

impl View for Entry {
    type V = EntryModel;

    open spec fn view(&self) -> EntryModel {
        EntryModel {
            id: self.id as int,
            date: self.date@,
            tag: self.tag@,
            value: self.value as int,
            locked: self.locked,
            description: opt_text(self.description),
        }
    }
}

/// Copies an optional text field.
pub fn copy_opt_text(d: &Option<String>) -> (r: Option<String>)
    ensures
        opt_text(r) == opt_text(*d),
{
    match d {
        Some(s) => Some(s.clone()),
        None => None,
    }
}

impl Clone for Entry {
    fn clone(&self) -> (r: Self)
        ensures
            r@ == self@,
    {
        Entry {
            id: self.id,
            date: self.date.clone(),
            tag: self.tag.clone(),
            value: self.value,
            locked: self.locked,
            description: copy_opt_text(&self.description),
        }
    }
}

/// Mathematical model of one not-yet-inserted entry.
pub struct RequestModel {
    pub tag: Seq<char>,
    pub value: int,
    pub description: Option<Seq<char>>,
}

/// One entry of a whole-day write, before the store assigns it an identity.
#[derive(Debug)]
pub struct EntryRequest {
    pub tag: String,
    pub value: i64,
    pub description: Option<String>,
}

impl View for EntryRequest {
    type V = RequestModel;

    open spec fn view(&self) -> RequestModel {
        RequestModel {
            tag: self.tag@,
            value: self.value as int,
            description: opt_text(self.description),
        }
    }
}

/// A day's entries together with the day's lock flag.
#[derive(Debug)]
pub struct EntriesResponse {
    pub entries: Vec<Entry>,
    pub locked: bool,
}

/// Mathematical model of the whole store: the rows in storage order and the
/// next identity to be assigned.
pub struct StoreModel {
    pub rows: Seq<EntryModel>,
    pub next_id: int,
}

/// The views of a sequence of entry rows.
pub open spec fn row_views(rows: Seq<Entry>) -> Seq<EntryModel> {
    Seq::new(rows.len(), |i: int| rows[i]@)
}

/// The views of a sequence of entry requests.
pub open spec fn req_views(reqs: Seq<EntryRequest>) -> Seq<RequestModel> {
    Seq::new(reqs.len(), |i: int| reqs[i]@)
}

/// The month key of a date: its first seven characters (`YYYY-MM` for ISO
/// dates), or the whole date when it is shorter.
pub open spec fn month_of(date: Seq<char>) -> Seq<char> {
    if date.len() <= 7 {
        date
    } else {
        date.take(7)
    }
}

/// A day is locked when some entry of that day carries the lock flag.
pub open spec fn day_locked(rows: Seq<EntryModel>, date: Seq<char>) -> bool
    decreases rows.len(),
{
    if rows.len() == 0 {
        false
    } else {
        day_locked(rows.drop_last(), date) || (rows.last().date == date && rows.last().locked)
    }
}

/// The entries of one day, in storage order.
pub open spec fn entries_for(rows: Seq<EntryModel>, date: Seq<char>) -> Seq<EntryModel>
    decreases rows.len(),
{
    if rows.len() == 0 {
        Seq::empty()
    } else {
        let rest = entries_for(rows.drop_last(), date);
        if rows.last().date == date {
            rest.push(rows.last())
        } else {
            rest
        }
    }
}

/// The entries of every day but `date`, in storage order.
pub open spec fn entries_outside(rows: Seq<EntryModel>, date: Seq<char>) -> Seq<EntryModel>
    decreases rows.len(),
{
    if rows.len() == 0 {
        Seq::empty()
    } else {
        let rest = entries_outside(rows.drop_last(), date);
        if rows.last().date == date {
            rest
        } else {
            rest.push(rows.last())
        }
    }
}

/// The entries of one month, in storage order.
pub open spec fn month_rows(rows: Seq<EntryModel>, month: Seq<char>) -> Seq<EntryModel>
    decreases rows.len(),
{
    if rows.len() == 0 {
        Seq::empty()
    } else {
        let rest = month_rows(rows.drop_last(), month);
        if month_of(rows.last().date) == month {
            rest.push(rows.last())
        } else {
            rest
        }
    }
}

/// The sum of the values of a sequence of entries.
pub open spec fn sum_values(rows: Seq<EntryModel>) -> int
    decreases rows.len(),
{
    if rows.len() == 0 {
        0
    } else {
        sum_values(rows.drop_last()) + rows.last().value
    }
}

/// The sum of the values of the entries carrying `tag`.
pub open spec fn sum_for_tag(rows: Seq<EntryModel>, tag: Seq<char>) -> int
    decreases rows.len(),
{
    if rows.len() == 0 {
        0
    } else {
        sum_for_tag(rows.drop_last(), tag) + if rows.last().tag == tag {
            rows.last().value
        } else {
            0
        }
    }
}

/// The distinct tags of `rows` in order of first occurrence.
pub open spec fn tags_in_order(rows: Seq<EntryModel>) -> Seq<Seq<char>>
    decreases rows.len(),
{
    if rows.len() == 0 {
        Seq::empty()
    } else {
        let rest = tags_in_order(rows.drop_last());
        if rest.contains(rows.last().tag) {
            rest
        } else {
            rest.push(rows.last().tag)
        }
    }
}

/// The distinct dates of `rows` in order of first occurrence.
pub open spec fn dates_in_order(rows: Seq<EntryModel>) -> Seq<Seq<char>>
    decreases rows.len(),
{
    if rows.len() == 0 {
        Seq::empty()
    } else {
        let rest = dates_in_order(rows.drop_last());
        if rest.contains(rows.last().date) {
            rest
        } else {
            rest.push(rows.last().date)
        }
    }
}

/// The distinct month keys of `rows` in order of first occurrence.
pub open spec fn months_in_order(rows: Seq<EntryModel>) -> Seq<Seq<char>>
    decreases rows.len(),
{
    if rows.len() == 0 {
        Seq::empty()
    } else {
        let rest = months_in_order(rows.drop_last());
        if rest.contains(month_of(rows.last().date)) {
            rest
        } else {
            rest.push(month_of(rows.last().date))
        }
    }
}

/// The rows a whole-day write inserts: one per request, dated `date`,
/// unlocked, with consecutive identities starting at `base`.
pub open spec fn fresh_rows(reqs: Seq<RequestModel>, date: Seq<char>, base: int) -> Seq<
    EntryModel,
> {
    Seq::new(
        reqs.len(),
        |i: int|
            EntryModel {
                id: base + i,
                date: date,
                tag: reqs[i].tag,
                value: reqs[i].value,
                locked: false,
                description: reqs[i].description,
            },
    )
}

/// Well-formedness of a row sequence: identities strictly increase in
/// storage order (so they are unique), all entries of one day share the
/// day's lock flag, and every value fits in `i64`.
pub open spec fn wf_rows(rows: Seq<EntryModel>) -> bool {
    &&& forall|i: int, j: int|
        #![trigger rows[i].id, rows[j].id]
        0 <= i < j < rows.len() ==> rows[i].id < rows[j].id
    &&& forall|i: int, j: int|
        #![trigger rows[i].date, rows[j].date]
        0 <= i < rows.len() && 0 <= j < rows.len() && rows[i].date == rows[j].date
            ==> rows[i].locked == rows[j].locked
    &&& forall|i: int|
        0 <= i < rows.len() ==> i64::MIN <= #[trigger] rows[i].value <= i64::MAX
}

impl StoreModel {
    /// Well-formedness of the whole store: well-formed rows whose
    /// identities all precede `next_id`.
    pub open spec fn wf(&self) -> bool {
        &&& wf_rows(self.rows)
        &&& forall|i: int|
            0 <= i < self.rows.len() ==> 0 < (#[trigger] self.rows[i]).id < self.next_id
        &&& 0 < self.next_id <= i64::MAX
    }
}

/// Entries sorted by date (lexicographically) and then by identity.
pub open spec fn sorted_by_date_then_id(rows: Seq<EntryModel>) -> bool {
    forall|i: int, j: int|
        #![trigger rows[i].date, rows[j].date]
        0 <= i < j < rows.len() ==> lex_lt(rows[i].date, rows[j].date) || (rows[i].date
            == rows[j].date && rows[i].id < rows[j].id)
}

/// One-step unfolding of `day_locked` over an appended row.
pub proof fn lemma_day_locked_push(rows: Seq<EntryModel>, e: EntryModel, date: Seq<char>)
    ensures
        day_locked(rows.push(e), date) == (day_locked(rows, date) || (e.date == date
            && e.locked)),
{
    assert(rows.push(e).drop_last() =~= rows);
}

/// One-step unfolding of `entries_for` over an appended row.
pub proof fn lemma_entries_for_push(rows: Seq<EntryModel>, e: EntryModel, date: Seq<char>)
    ensures
        entries_for(rows.push(e), date) == (if e.date == date {
            entries_for(rows, date).push(e)
        } else {
            entries_for(rows, date)
        }),
{
    assert(rows.push(e).drop_last() =~= rows);
}

/// One-step unfolding of `entries_outside` over an appended row.
pub proof fn lemma_entries_outside_push(rows: Seq<EntryModel>, e: EntryModel, date: Seq<char>)
    ensures
        entries_outside(rows.push(e), date) == (if e.date == date {
            entries_outside(rows, date)
        } else {
            entries_outside(rows, date).push(e)
        }),
{
    assert(rows.push(e).drop_last() =~= rows);
}

/// One-step unfolding of `month_rows` over an appended row.
pub proof fn lemma_month_rows_push(rows: Seq<EntryModel>, e: EntryModel, month: Seq<char>)
    ensures
        month_rows(rows.push(e), month) == (if month_of(e.date) == month {
            month_rows(rows, month).push(e)
        } else {
            month_rows(rows, month)
        }),
{
    assert(rows.push(e).drop_last() =~= rows);
}

/// One-step unfolding of `sum_values` over an appended row.
pub proof fn lemma_sum_values_push(rows: Seq<EntryModel>, e: EntryModel)
    ensures
        sum_values(rows.push(e)) == sum_values(rows) + e.value,
{
    assert(rows.push(e).drop_last() =~= rows);
}

/// One-step unfolding of `sum_for_tag` over an appended row.
pub proof fn lemma_sum_for_tag_push(rows: Seq<EntryModel>, e: EntryModel, tag: Seq<char>)
    ensures
        sum_for_tag(rows.push(e), tag) == sum_for_tag(rows, tag) + (if e.tag == tag {
            e.value
        } else {
            0
        }),
{
    assert(rows.push(e).drop_last() =~= rows);
}

/// One-step unfolding of `tags_in_order` over an appended row.
pub proof fn lemma_tags_in_order_push(rows: Seq<EntryModel>, e: EntryModel)
    ensures
        tags_in_order(rows.push(e)) == (if tags_in_order(rows).contains(e.tag) {
            tags_in_order(rows)
        } else {
            tags_in_order(rows).push(e.tag)
        }),
{
    assert(rows.push(e).drop_last() =~= rows);
}

/// One-step unfolding of `dates_in_order` over an appended row.
pub proof fn lemma_dates_in_order_push(rows: Seq<EntryModel>, e: EntryModel)
    ensures
        dates_in_order(rows.push(e)) == (if dates_in_order(rows).contains(e.date) {
            dates_in_order(rows)
        } else {
            dates_in_order(rows).push(e.date)
        }),
{
    assert(rows.push(e).drop_last() =~= rows);
}

/// One-step unfolding of `months_in_order` over an appended row.
pub proof fn lemma_months_in_order_push(rows: Seq<EntryModel>, e: EntryModel)
    ensures
        months_in_order(rows.push(e)) == (if months_in_order(rows).contains(month_of(e.date)) {
            months_in_order(rows)
        } else {
            months_in_order(rows).push(month_of(e.date))
        }),
{
    assert(rows.push(e).drop_last() =~= rows);
}

/// The entries kept by `entries_outside` belong to other days, all stem
/// from `rows`, and they stay well-formed.
pub proof fn lemma_entries_outside_props(rows: Seq<EntryModel>, date: Seq<char>)
    ensures
        forall|k: int|
            0 <= k < entries_outside(rows, date).len() ==> (#[trigger] entries_outside(
                rows,
                date,
            )[k]).date != date,
        forall|k: int|
            0 <= k < entries_outside(rows, date).len() ==> rows.contains(
                #[trigger] entries_outside(rows, date)[k],
            ),
        wf_rows(rows) ==> wf_rows(entries_outside(rows, date)),
    decreases rows.len(),
{
    if rows.len() > 0 {
        let prefix = rows.drop_last();
        let rest = entries_outside(prefix, date);
        let out = entries_outside(rows, date);
        lemma_entries_outside_props(prefix, date);
        assert forall|k: int| 0 <= k < rest.len() implies rows.contains(rest[k]) by {
            let i = choose|i: int| 0 <= i < prefix.len() && prefix[i] == rest[k];
            assert(rows[i] == rest[k]);
        }
        if wf_rows(rows) {
            assert(wf_rows(prefix)) by {
                assert forall|i: int| 0 <= i < prefix.len() implies prefix[i] == rows[i] by {}
            }
            if rows.last().date != date {
                let last = rows.last();
                assert(out == rest.push(last));
                assert forall|k: int| 0 <= k < rest.len() implies rest[k].id < last.id by {
                    let i = choose|i: int| 0 <= i < prefix.len() && prefix[i] == rest[k];
                    assert(rows[i].id < rows[rows.len() - 1].id);
                }
                assert forall|k: int|
                    0 <= k < rest.len() && rest[k].date == last.date implies rest[k].locked
                    == last.locked by {
                    let i = choose|i: int| 0 <= i < prefix.len() && prefix[i] == rest[k];
                    assert(rows[i].date == rows[rows.len() - 1].date);
                }
                assert(wf_rows(out)) by {
                    assert forall|i: int, j: int|
                        0 <= i < j < out.len() implies #[trigger] out[i].id
                        < #[trigger] out[j].id by {
                        if j < rest.len() {
                            assert(out[i] == rest[i] && out[j] == rest[j]);
                        } else {
                            assert(out[j] == last);
                            assert(out[i] == rest[i]);
                        }
                    }
                    assert forall|i: int, j: int|
                        0 <= i < out.len() && 0 <= j < out.len() && #[trigger] out[i].date
                            == #[trigger] out[j].date implies out[i].locked == out[j].locked by {
                        let ei = out[i];
                        let ej = out[j];
                        assert(rows.contains(ei));
                        assert(rows.contains(ej));
                        let i2 = choose|x: int| 0 <= x < rows.len() && rows[x] == ei;
                        let j2 = choose|x: int| 0 <= x < rows.len() && rows[x] == ej;
                        assert(rows[i2].date == rows[j2].date);
                    }
                    assert forall|i: int| 0 <= i < out.len() implies i64::MIN
                        <= #[trigger] out[i].value <= i64::MAX by {
                        assert(rows.contains(out[i]));
                        let x = choose|x: int| 0 <= x < rows.len() && rows[x] == out[i];
                        assert(i64::MIN <= rows[x].value <= i64::MAX);
                    }
                }
            }
        }
    }
}

/// Per-tag total of a month, in the fixed-point scale of the values.
#[derive(Debug)]
pub struct TagTotal {
    pub tag: String,
    pub total: i128,
}

/// A month's per-tag totals plus the grand total over all its entries.
#[derive(Debug)]
pub struct MonthlySummary {
    pub tags: Vec<TagTotal>,
    pub total: i128,
}

/// The views of a sequence of strings.
pub open spec fn str_views(s: Seq<String>) -> Seq<Seq<char>> {
    Seq::new(s.len(), |i: int| s[i]@)
}

/// The tag names of a sequence of per-tag totals.
pub open spec fn tag_views(s: Seq<TagTotal>) -> Seq<Seq<char>> {
    Seq::new(s.len(), |i: int| s[i].tag@)
}

/// The month key of a date string: its first seven characters, or the
/// whole string when it is shorter.
pub fn month_key(date: &str) -> (m: String)
    ensures
        m@ == month_of(date@),
{
    let n = date.unicode_len();
    if n <= 7 {
        date.to_owned()
    } else {
        let s = date.substring_char(0, 7);
        proof {
            assert(date@.subrange(0, 7) =~= date@.take(7));
        }
        s.to_owned()
    }
}

/// `post` holds exactly the elements of `pre` together with `k`.
pub open spec fn adds_key(post: Seq<Seq<char>>, pre: Seq<Seq<char>>, k: Seq<char>) -> bool {
    forall|x: Seq<char>| post.contains(x) <==> (pre.contains(x) || x == k)
}

/// Two string sequences holding exactly the same elements.
pub open spec fn same_keys(a: Seq<Seq<char>>, b: Seq<Seq<char>>) -> bool {
    forall|x: Seq<char>| a.contains(x) <==> b.contains(x)
}

/// Membership in a sequence extended by one element.
pub proof fn lemma_contains_push<A>(s: Seq<A>, x: A, y: A)
    ensures
        s.push(x).contains(y) <==> (s.contains(y) || x == y),
{
    if s.push(x).contains(y) {
        let w = choose|w: int| 0 <= w < s.push(x).len() && s.push(x)[w] == y;
        if w < s.len() {
            assert(s[w] == y);
        }
    }
    if s.contains(y) {
        let w = choose|w: int| 0 <= w < s.len() && s[w] == y;
        assert(s.push(x)[w] == y);
    }
    if x == y {
        assert(s.push(x)[s.len() as int] == y);
    }
}

/// Whether some element of `v` equals the string `s`.
pub fn vec_contains_str(v: &Vec<String>, s: &String) -> (r: bool)
    ensures
        r == str_views(v@).contains(s@),
{
    let mut i: usize = 0;
    while i < v.len()
        invariant
            i <= v@.len(),
            forall|q: int| 0 <= q < i ==> #[trigger] str_views(v@)[q] != s@,
        decreases v@.len() - i,
    {
        if v[i].eq(s) {
            proof {
                assert(str_views(v@)[i as int] == s@);
            }
            return true;
        }
        proof {
            assert(str_views(v@)[i as int] == v@[i as int]@);
        }
        i += 1;
    }
    proof {
        if str_views(v@).contains(s@) {
            let w = choose|w: int| 0 <= w < str_views(v@).len() && str_views(v@)[w] == s@;
            assert(str_views(v@)[w] != s@);
        }
    }
    false
}

/// `months_in_order` holds exactly the month keys of the rows.
pub proof fn lemma_months_in_order_contains(rows: Seq<EntryModel>, m: Seq<char>)
    ensures
        months_in_order(rows).contains(m) <==> exists|i: int|
            0 <= i < rows.len() && month_of((#[trigger] rows[i]).date) == m,
    decreases rows.len(),
{
    if rows.len() > 0 {
        let prefix = rows.drop_last();
        let rest = months_in_order(prefix);
        let key = month_of(rows.last().date);
        let whole = months_in_order(rows);
        lemma_months_in_order_contains(prefix, m);
        if whole.contains(m) {
            let w = choose|w: int| 0 <= w < whole.len() && whole[w] == m;
            if w < rest.len() {
                assert(rest[w] == m);
                assert(rest.contains(m));
                let i = choose|i: int|
                    0 <= i < prefix.len() && month_of((#[trigger] prefix[i]).date) == m;
                assert(month_of(rows[i].date) == m);
            } else {
                assert(m == key);
                assert(month_of(rows[rows.len() - 1].date) == m);
            }
        }
        if exists|i: int| 0 <= i < rows.len() && month_of((#[trigger] rows[i]).date) == m {
            let i = choose|i: int|
                0 <= i < rows.len() && month_of((#[trigger] rows[i]).date) == m;
            if i == rows.len() - 1 {
                if rest.contains(key) {
                    let w = choose|w: int| 0 <= w < rest.len() && rest[w] == key;
                    assert(whole[w] == key);
                } else {
                    assert(whole[rest.len() as int] == key);
                }
                assert(whole.contains(m));
            } else {
                assert(month_of(prefix[i].date) == m);
                assert(rest.contains(m));
                let w = choose|w: int| 0 <= w < rest.len() && rest[w] == m;
                assert(whole[w] == m);
                assert(whole.contains(m));
            }
        }
    }
}

/// `tags_in_order` holds exactly the tags of the rows.
pub proof fn lemma_tags_in_order_contains(rows: Seq<EntryModel>, t: Seq<char>)
    ensures
        tags_in_order(rows).contains(t) <==> exists|i: int|
            0 <= i < rows.len() && (#[trigger] rows[i]).tag == t,
    decreases rows.len(),
{
    if rows.len() > 0 {
        let prefix = rows.drop_last();
        let rest = tags_in_order(prefix);
        let key = rows.last().tag;
        let whole = tags_in_order(rows);
        lemma_tags_in_order_contains(prefix, t);
        if whole.contains(t) {
            let w = choose|w: int| 0 <= w < whole.len() && whole[w] == t;
            if w < rest.len() {
                assert(rest[w] == t);
                assert(rest.contains(t));
                let i = choose|i: int| 0 <= i < prefix.len() && (#[trigger] prefix[i]).tag == t;
                assert(rows[i].tag == t);
            } else {
                assert(t == key);
                assert(rows[rows.len() - 1].tag == t);
            }
        }
        if exists|i: int| 0 <= i < rows.len() && (#[trigger] rows[i]).tag == t {
            let i = choose|i: int| 0 <= i < rows.len() && (#[trigger] rows[i]).tag == t;
            if i == rows.len() - 1 {
                if rest.contains(key) {
                    let w = choose|w: int| 0 <= w < rest.len() && rest[w] == key;
                    assert(whole[w] == key);
                } else {
                    assert(whole[rest.len() as int] == key);
                }
                assert(whole.contains(t));
            } else {
                assert(prefix[i].tag == t);
                assert(rest.contains(t));
                let w = choose|w: int| 0 <= w < rest.len() && rest[w] == t;
                assert(whole[w] == t);
                assert(whole.contains(t));
            }
        }
    }
}

/// The distinct tag list never repeats a tag.
pub proof fn lemma_tags_in_order_distinct(rows: Seq<EntryModel>)
    ensures
        forall|a: int, b: int|
            0 <= a < b < tags_in_order(rows).len() ==> #[trigger] tags_in_order(rows)[a]
                != #[trigger] tags_in_order(rows)[b],
    decreases rows.len(),
{
    if rows.len() > 0 {
        let prefix = rows.drop_last();
        lemma_tags_in_order_distinct(prefix);
        let rest = tags_in_order(prefix);
        if !rest.contains(rows.last().tag) {
            assert forall|a: int, b: int|
                0 <= a < b < tags_in_order(rows).len() implies #[trigger] tags_in_order(rows)[a]
                != #[trigger] tags_in_order(rows)[b] by {
                if b < rest.len() {
                    assert(tags_in_order(rows)[a] == rest[a]);
                    assert(tags_in_order(rows)[b] == rest[b]);
                } else {
                    assert(tags_in_order(rows)[b] == rows.last().tag);
                    assert(tags_in_order(rows)[a] == rest[a]);
                    assert(rest.contains(rest[a]));
                }
            }
        }
    }
}

/// The entries kept by `entries_for` all belong to `date` and stem from
/// `rows`.
pub proof fn lemma_entries_for_props(rows: Seq<EntryModel>, date: Seq<char>)
    ensures
        forall|k: int|
            0 <= k < entries_for(rows, date).len() ==> (#[trigger] entries_for(rows, date)[k]).date
                == date,
        forall|k: int|
            0 <= k < entries_for(rows, date).len() ==> rows.contains(
                #[trigger] entries_for(rows, date)[k],
            ),
    decreases rows.len(),
{
    if rows.len() > 0 {
        let prefix = rows.drop_last();
        let rest = entries_for(prefix, date);
        lemma_entries_for_props(prefix, date);
        assert forall|k: int| 0 <= k < rest.len() implies rows.contains(rest[k]) by {
            let i = choose|i: int| 0 <= i < prefix.len() && prefix[i] == rest[k];
            assert(rows[i] == rest[k]);
        }
        if rows.last().date == date {
            assert(entries_for(rows, date) == rest.push(rows.last()));
            assert(rows.contains(rows[rows.len() - 1]));
        }
    }
}

/// `day_locked` holds exactly when some entry of the day carries the flag.
pub proof fn lemma_day_locked_exists(rows: Seq<EntryModel>, date: Seq<char>)
    ensures
        day_locked(rows, date) <==> exists|i: int|
            0 <= i < rows.len() && (#[trigger] rows[i]).date == date && rows[i].locked,
    decreases rows.len(),
{
    if rows.len() > 0 {
        lemma_day_locked_exists(rows.drop_last(), date);
        if day_locked(rows.drop_last(), date) {
            let i = choose|i: int|
                0 <= i < rows.drop_last().len() && (#[trigger] rows.drop_last()[i]).date == date
                    && rows.drop_last()[i].locked;
            assert(rows[i].date == date && rows[i].locked);
        }
        if exists|i: int|
            0 <= i < rows.len() && (#[trigger] rows[i]).date == date && rows[i].locked {
            let i = choose|i: int|
                0 <= i < rows.len() && (#[trigger] rows[i]).date == date && rows[i].locked;
            if i < rows.len() - 1 {
                assert(rows.drop_last()[i].date == date && rows.drop_last()[i].locked);
            }
        }
    }
}

} // verus!
