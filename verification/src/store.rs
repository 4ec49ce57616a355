//! The entry store: durable CRUD over entry rows, together with the
//! day-lock protocol. A day is locked by setting the flag on every row of
//! that day; a locked day rejects whole-day writes and per-entry updates,
//! and no unlock operation exists.

use vstd::prelude::*;
use crate::entry::{
    day_locked, entries_for, entries_outside, fresh_rows, lemma_contains_push,
    lemma_day_locked_push, lemma_dates_in_order_push, lemma_entries_for_push,
    lemma_entries_outside_props, lemma_entries_outside_push, lemma_month_rows_push,
    lemma_months_in_order_push, lemma_sum_for_tag_push, lemma_sum_values_push,
    lemma_tags_in_order_push, adds_key, same_keys, month_key, month_of, months_in_order, dates_in_order, month_rows,
    opt_text, req_views, row_views, str_views, sum_for_tag, sum_values, tag_views, tags_in_order,
    vec_contains_str, wf_rows, EntriesResponse, Entry, EntryModel, EntryRequest, MonthlySummary, RequestModel,
    StoreError, StoreModel, TagTotal, sorted_by_date_then_id,
};
use crate::lex::{lex_lt, str_compare, strictly_asc, strictly_desc, StrCmp};

verus! {

/// The entry store: rows in insertion order behind a single owner, with
/// the next identity to hand out. The well-formedness invariant of
/// [`StoreModel`] is established by [`EntryStore::new`] and preserved by
/// every operation.
pub struct EntryStore {
    entries: Vec<Entry>,
    next_id: i64,
}

impl View for EntryStore {
    type V = StoreModel;

    closed spec fn view(&self) -> StoreModel {
        StoreModel { rows: row_views(self.entries@), next_id: self.next_id as int }
    }
}

/// The model of `e` locked when it belongs to `date`, unchanged otherwise.
pub open spec fn lock_model(e: EntryModel, date: Seq<char>) -> EntryModel {
    if e.date == date {
        EntryModel { locked: true, ..e }
    } else {
        e
    }
}

/// The model of `e` with tag, value and description replaced; identity,
/// date and lock flag are untouched.
pub open spec fn retagged(
    e: EntryModel,
    tag: Seq<char>,
    value: int,
    description: Option<Seq<char>>,
) -> EntryModel {
    EntryModel { id: e.id, date: e.date, tag: tag, value: value, locked: e.locked, description:
        description }
}

/// Whether the scan for the insertion position of `key` moves past
/// position `p` of the sorted list.
fn scan_on(list: &Vec<String>, key: &String, p: usize, descending: bool) -> (b: bool)
    requires
        p < list@.len(),
    ensures
        b == (if descending {
            lex_lt(key@, str_views(list@)[p as int])
        } else {
            lex_lt(str_views(list@)[p as int], key@)
        }),
{
    proof {
        assert(str_views(list@)[p as int] == list@[p as int]@);
    }
    let c = str_compare(list[p].as_str(), key.as_str());
    if descending {
        c == StrCmp::Gt
    } else {
        c == StrCmp::Lt
    }
}

/// Inserts `key` into a strictly sorted list of strings, keeping the order
/// and never duplicating an element already present.
#[verifier::rlimit(100)]
fn insert_sorted_distinct(list: &mut Vec<String>, key: String, descending: bool)
    requires
        descending ==> strictly_desc(str_views(old(list)@)),
        !descending ==> strictly_asc(str_views(old(list)@)),
    ensures
        descending ==> strictly_desc(str_views(final(list)@)),
        !descending ==> strictly_asc(str_views(final(list)@)),
        adds_key(str_views(final(list)@), str_views(old(list)@), key@),
{
    let ghost pre = list@;
    let n = list.len();
    let mut p: usize = 0;
    while p < n && scan_on(list, &key, p, descending)
        invariant
            n == list.len(),
            p <= n,
            list@ == pre,
            descending ==> forall|q: int|
                0 <= q < p ==> lex_lt(key@, #[trigger] str_views(pre)[q]),
            !descending ==> forall|q: int|
                0 <= q < p ==> lex_lt(#[trigger] str_views(pre)[q], key@),
        decreases n - p,
    {
        p += 1;
    }
    if p < n && str_compare(list[p].as_str(), key.as_str()) == StrCmp::Eq {
        proof {
            assert(str_views(pre)[p as int] == key@);
            assert(str_views(pre).contains(key@));
            assert(adds_key(str_views(list@), str_views(pre), key@));
        }
        return ;
    }
    proof {
        if p < n {
            if descending {
                assert(lex_lt(str_views(pre)[p as int], key@));
            } else {
                assert(lex_lt(key@, str_views(pre)[p as int]));
            }
        }
    }
    let kc = key.clone();
    list.insert(p, kc);
    proof {
        pre.insert_ensures(p as int, key);
        assert(list@ == pre.insert(p as int, key));
        let post = str_views(list@);
        let prev = str_views(pre);
        assert(post.len() == prev.len() + 1);
        assert forall|w: int| 0 <= w < post.len() implies post[w] == (if w < p {
            prev[w]
        } else if w == p {
            key@
        } else {
            prev[w - 1]
        }) by {
            if w < p {
                assert(list@[w] == pre[w]);
            } else if w > p {
                assert(list@[w] == pre[w - 1]);
            }
        }
        if descending {
            assert forall|a: int, b: int| 0 <= a < b < post.len() implies lex_lt(
                post[b],
                post[a],
            ) by {
                if b < p {
                } else if a < p && b == p {
                } else if a == p && b > p {
                    if b - 1 > p {
                        crate::lex::lemma_lex_transitive(prev[b - 1], prev[p as int], key@);
                    }
                } else {
                }
            }
        } else {
            assert forall|a: int, b: int| 0 <= a < b < post.len() implies lex_lt(
                post[a],
                post[b],
            ) by {
                if b < p {
                } else if a < p && b == p {
                } else if a == p && b > p {
                    if b - 1 > p {
                        crate::lex::lemma_lex_transitive(key@, prev[p as int], prev[b - 1]);
                    }
                } else {
                }
            }
        }
        assert forall|x: Seq<char>| str_views(list@).contains(x) <==> (str_views(pre).contains(x)
            || x == key@) by {
            if str_views(list@).contains(x) {
                let w = choose|w: int| 0 <= w < post.len() && post[w] == x;
                if w < p {
                    assert(prev[w] == x);
                } else if w > p {
                    assert(prev[w - 1] == x);
                }
            }
            if str_views(pre).contains(x) {
                let w = choose|w: int| 0 <= w < prev.len() && prev[w] == x;
                if w < p {
                    assert(post[w] == x);
                } else {
                    assert(post[w + 1] == x);
                }
            }
            if x == key@ {
                assert(post[p as int] == x);
            }
        }
        assert(adds_key(str_views(list@), str_views(pre), key@));
    }
}

impl EntryStore {
    /// The store invariant, stated over the model.
    pub open spec fn wf(&self) -> bool {
        self@.wf()
    }

    /// An empty store; the first entry will get identity 1.
    pub fn new() -> (s: EntryStore)
        ensures
            s.wf(),
            s@.rows == Seq::<EntryModel>::empty(),
            s@.next_id == 1,
    {
        let s = EntryStore { entries: Vec::new(), next_id: 1 };
        proof {
            assert(s@.rows =~= Seq::<EntryModel>::empty());
        }
        s
    }

    /// The identity the next inserted entry will receive; whole-day
    /// writes need the identities they assign to stay within `i64`.
    pub fn next_identity(&self) -> (n: i64)
        ensures
            n as int == self@.next_id,
    {
        self.next_id
    }

    /// All entries of `date` in storage order, with the day's lock flag
    /// (`false` when the day has no entries).
    pub fn get_entries(&self, date: String) -> (r: EntriesResponse)
        requires
            self.wf(),
        ensures
            row_views(r.entries@) == entries_for(self@.rows, date@),
            r.locked == day_locked(self@.rows, date@),
    {
        let ghost rows = self@.rows;
        let mut out: Vec<Entry> = Vec::new();
        let mut locked = false;
        let mut i: usize = 0;
        while i < self.entries.len()
            invariant
                self.wf(),
                rows == self@.rows,
                i <= self.entries.len(),
                row_views(out@) == entries_for(rows.take(i as int), date@),
                locked == day_locked(rows.take(i as int), date@),
            decreases self.entries.len() - i,
        {
            proof {
                assert(rows.take(i as int + 1) =~= rows.take(i as int).push(rows[i as int]));
                lemma_entries_for_push(rows.take(i as int), rows[i as int], date@);
                lemma_day_locked_push(rows.take(i as int), rows[i as int], date@);
            }
            let e = &self.entries[i];
            if e.date == date {
                out.push(e.clone());
                proof {
                    assert(row_views(out@) =~= entries_for(rows.take(i as int), date@).push(
                        rows[i as int],
                    ));
                }
            }
            locked = locked || (e.date == date && e.locked);
            i += 1;
        }
        proof {
            assert(rows.take(rows.len() as int) =~= rows);
        }
        EntriesResponse { entries: out, locked }
    }

    /// Replaces the whole day `date`: fails with `DayLocked` when the day
    /// is locked, otherwise deletes every row of that day and inserts the
    /// requested set with fresh consecutive identities and the lock flag
    /// clear.
    pub fn add_entries(&mut self, date: String, entries: Vec<EntryRequest>) -> (r: Result<
        bool,
        StoreError,
    >)
        requires
            old(self).wf(),
            old(self)@.next_id + entries@.len() <= i64::MAX,
        ensures
            final(self).wf(),
            day_locked(old(self)@.rows, date@) ==> r == Err::<bool, StoreError>(
                StoreError::DayLocked,
            ) && final(self)@ == old(self)@,
            !day_locked(old(self)@.rows, date@) ==> r == Ok::<bool, StoreError>(true) && final(self)@.rows == entries_outside(old(self)@.rows, date@) + fresh_rows(
                req_views(entries@),
                date@,
                old(self)@.next_id,
            ) && final(self)@.next_id == old(self)@.next_id + entries@.len(),
    {
        let ghost rows = self@.rows;
        let mut locked = false;
        let mut i: usize = 0;
        while i < self.entries.len()
            invariant
                self.wf(),
                rows == self@.rows,
                i <= self.entries.len(),
                locked == day_locked(rows.take(i as int), date@),
            decreases self.entries.len() - i,
        {
            proof {
                assert(rows.take(i as int + 1) =~= rows.take(i as int).push(rows[i as int]));
                lemma_day_locked_push(rows.take(i as int), rows[i as int], date@);
            }
            let e = &self.entries[i];
            locked = locked || (e.date == date && e.locked);
            i += 1;
        }
        proof {
            assert(rows.take(rows.len() as int) =~= rows);
        }
        if locked {
            return Err(StoreError::DayLocked);
        }

        let mut out: Vec<Entry> = Vec::new();
        let mut i: usize = 0;
        while i < self.entries.len()
            invariant
                self.wf(),
                rows == self@.rows,
                i <= self.entries.len(),
                row_views(out@) == entries_outside(rows.take(i as int), date@),
            decreases self.entries.len() - i,
        {
            proof {
                assert(rows.take(i as int + 1) =~= rows.take(i as int).push(rows[i as int]));
                lemma_entries_outside_push(rows.take(i as int), rows[i as int], date@);
            }
            let e = &self.entries[i];
            if !(e.date == date) {
                out.push(e.clone());
                proof {
                    assert(row_views(out@) =~= entries_outside(rows.take(i as int), date@).push(
                        rows[i as int],
                    ));
                }
            }
            i += 1;
        }
        proof {
            assert(rows.take(rows.len() as int) =~= rows);
        }

        let ghost reqmods = req_views(entries@);
        let ghost kept = entries_outside(rows, date@);
        let next0 = self.next_id;
        let mut k: usize = 0;
        while k < entries.len()
            invariant
                k <= entries.len(),
                reqmods == req_views(entries@),
                next0 as int + entries@.len() <= i64::MAX,
                0 < next0 as int,
                row_views(out@) == kept + fresh_rows(reqmods.take(k as int), date@, next0 as int),
            decreases entries.len() - k,
        {
            let rq = &entries[k];
            let id_k: i64 = next0 + (k as i64);
            let en = Entry {
                id: id_k,
                date: date.clone(),
                tag: rq.tag.clone(),
                value: rq.value,
                locked: false,
                description: crate::entry::copy_opt_text(&rq.description),
            };
            let ghost em = en@;
            out.push(en);
            proof {
                let prev = kept + fresh_rows(reqmods.take(k as int), date@, next0 as int);
                assert(em == (EntryModel {
                    id: next0 as int + k as int,
                    date: date@,
                    tag: reqmods[k as int].tag,
                    value: reqmods[k as int].value,
                    locked: false,
                    description: reqmods[k as int].description,
                }));
                assert(row_views(out@) =~= prev.push(em));
                assert(kept + fresh_rows(reqmods.take(k as int + 1), date@, next0 as int)
                    =~= prev.push(em));
            }
            k += 1;
        }
        proof {
            assert(reqmods.take(reqmods.len() as int) =~= reqmods);
        }

        self.entries = out;
        self.next_id = next0 + entries.len() as i64;

        proof {
            let fresh = fresh_rows(reqmods, date@, next0 as int);
            let newrows = kept + fresh;
            lemma_entries_outside_props(rows, date@);
            assert forall|a: int| 0 <= a < kept.len() implies 0 < (#[trigger] kept[a]).id
                < next0 as int && i64::MIN <= kept[a].value <= i64::MAX by {
                assert(rows.contains(kept[a]));
                let x = choose|x: int| 0 <= x < rows.len() && rows[x] == kept[a];
                assert(0 < rows[x].id < next0 as int);
            }
            assert(wf_rows(newrows)) by {
                assert forall|a: int, b: int| 0 <= a < b < newrows.len() implies (#[trigger] newrows[a]).id
                    < (#[trigger] newrows[b]).id by {
                    if b < kept.len() {
                        assert(newrows[a] == kept[a] && newrows[b] == kept[b]);
                        assert(wf_rows(kept));
                    } else if a >= kept.len() {
                        assert(newrows[a] == fresh[a - kept.len()]);
                        assert(newrows[b] == fresh[b - kept.len()]);
                    } else {
                        assert(newrows[a] == kept[a]);
                        assert(newrows[b] == fresh[b - kept.len()]);
                    }
                }
                assert forall|a: int, b: int|
                    0 <= a < newrows.len() && 0 <= b < newrows.len() && newrows[a].date
                        == newrows[b].date implies newrows[a].locked == newrows[b].locked by {
                    if a < kept.len() && b < kept.len() {
                        assert(newrows[a] == kept[a] && newrows[b] == kept[b]);
                        assert(wf_rows(kept));
                    } else if a >= kept.len() && b >= kept.len() {
                        assert(newrows[a] == fresh[a - kept.len()]);
                        assert(newrows[b] == fresh[b - kept.len()]);
                    } else if a < kept.len() {
                        assert(newrows[a] == kept[a] && kept[a].date != date@);
                        assert(newrows[b] == fresh[b - kept.len()] && fresh[b - kept.len()].date
                            == date@);
                    } else {
                        assert(newrows[b] == kept[b] && kept[b].date != date@);
                        assert(newrows[a] == fresh[a - kept.len()] && fresh[a - kept.len()].date
                            == date@);
                    }
                }
                assert forall|a: int| 0 <= a < newrows.len() implies i64::MIN <= (#[trigger] newrows[a]).value
                    <= i64::MAX by {
                    if a < kept.len() {
                        assert(newrows[a] == kept[a]);
                    } else {
                        assert(newrows[a] == fresh[a - kept.len()]);
                        assert(fresh[a - kept.len()].value == reqmods[a - kept.len()].value);
                    }
                }
            }
            assert forall|a: int| 0 <= a < newrows.len() implies 0 < (#[trigger] newrows[a]).id
                < next0 as int + reqmods.len() by {
                if a < kept.len() {
                    assert(newrows[a] == kept[a]);
                } else {
                    assert(newrows[a] == fresh[a - kept.len()]);
                }
            }
            assert(final(self)@.rows == newrows);
        }
        Ok(true)
    }

    /// Locks the day `date`: sets the lock flag on every row of that day.
    /// Idempotent — locking an already-locked or entry-less day is a no-op
    /// success — and irreversible by design. Returns the confirmation
    /// message.
    pub fn lock_day(&mut self, date: String) -> (r: String)
        requires
            old(self).wf(),
        ensures
            final(self).wf(),
            final(self)@.next_id == old(self)@.next_id,
            final(self)@.rows.len() == old(self)@.rows.len(),
            forall|i: int|
                0 <= i < old(self)@.rows.len() ==> final(self)@.rows[i] == lock_model(
                    #[trigger] old(self)@.rows[i],
                    date@,
                ),
            r@ == "Day "@ + date@ + " locked successfully"@,
    {
        let ghost rows = self@.rows;
        let mut out: Vec<Entry> = Vec::new();
        let mut i: usize = 0;
        while i < self.entries.len()
            invariant
                self.wf(),
                rows == self@.rows,
                i <= self.entries.len(),
                out@.len() == i,
                forall|k: int|
                    0 <= k < i ==> row_views(out@)[k] == lock_model(#[trigger] rows[k], date@),
            decreases self.entries.len() - i,
        {
            let e = &self.entries[i];
            if e.date == date {
                out.push(
                    Entry {
                        id: e.id,
                        date: e.date.clone(),
                        tag: e.tag.clone(),
                        value: e.value,
                        locked: true,
                        description: crate::entry::copy_opt_text(&e.description),
                    },
                );
            } else {
                out.push(e.clone());
            }
            i += 1;
        }
        self.entries = out;
        proof {
            assert(final(self)@.rows.len() == rows.len());
            assert forall|a: int, b: int|
                0 <= a < final(self)@.rows.len() && 0 <= b < final(self)@.rows.len() && final(self)@.rows[a].date == final(self)@.rows[b].date implies final(self)@.rows[a].locked
                == final(self)@.rows[b].locked by {
                assert(final(self)@.rows[a] == lock_model(rows[a], date@));
                assert(final(self)@.rows[b] == lock_model(rows[b], date@));
                assert(rows[a].date == rows[b].date);
            }
            assert forall|a: int, b: int| 0 <= a < b < final(self)@.rows.len() implies (#[trigger] final(self)@.rows[a]).id < (#[trigger] final(self)@.rows[b]).id by {
                assert(final(self)@.rows[a] == lock_model(rows[a], date@));
                assert(final(self)@.rows[b] == lock_model(rows[b], date@));
            }
            assert forall|a: int| 0 <= a < final(self)@.rows.len() implies i64::MIN <= (#[trigger] final(self)@.rows[a]).value <= i64::MAX && 0 < final(self)@.rows[a].id < final(self)@.next_id by {
                assert(final(self)@.rows[a] == lock_model(rows[a], date@));
            }
        }
        let mut msg = String::from_str("Day ");
        msg.append(date.as_str());
        msg.append(" locked successfully");
        msg
    }

    /// Updates the tag, value and description of the entry carrying `id`
    /// in place; its date and lock flag are unchanged. Fails with
    /// `NotFound` when no entry carries `id` and with `EntryLocked` when
    /// the entry's day is locked; in both cases the store is unchanged.
    pub fn update_entry(
        &mut self,
        id: i64,
        tag: String,
        value: i64,
        description: Option<String>,
    ) -> (r: Result<bool, StoreError>)
        requires
            old(self).wf(),
        ensures
            final(self).wf(),
            (forall|i: int|
                0 <= i < old(self)@.rows.len() ==> (#[trigger] old(self)@.rows[i]).id != id)
                ==> r == Err::<bool, StoreError>(StoreError::NotFound) && final(self)@ == old(self)@,
            forall|i: int|
                0 <= i < old(self)@.rows.len() && (#[trigger] old(self)@.rows[i]).id == id ==> (
                if old(self)@.rows[i].locked {
                    r == Err::<bool, StoreError>(StoreError::EntryLocked) && final(self)@ == old(self)@
                } else {
                    r == Ok::<bool, StoreError>(true) && final(self)@.rows == old(self)@.rows.update(i, retagged(old(self)@.rows[i], tag@, value as int, opt_text(
                        description,
                    ))) && final(self)@.next_id == old(self)@.next_id
                }),
    {
        let ghost rows = self@.rows;
        let n = self.entries.len();
        let mut j: usize = 0;
        while j < n && self.entries[j].id != id
            invariant
                self.wf(),
                rows == self@.rows,
                n == self.entries.len(),
                j <= n,
                forall|i: int| 0 <= i < j ==> (#[trigger] rows[i]).id != id,
            decreases n - j,
        {
            j += 1;
        }
        if j == n {
            return Err(StoreError::NotFound);
        }
        proof {
            assert(rows[j as int].id == id);
            assert forall|i: int|
                0 <= i < rows.len() && (#[trigger] rows[i]).id == id implies i == j as int by {
                if i < j as int {
                    assert(rows[i].id < rows[j as int].id);
                } else if i > j as int {
                    assert(rows[j as int].id < rows[i].id);
                }
            }
        }
        if self.entries[j].locked {
            return Err(StoreError::EntryLocked);
        }

        let mut out: Vec<Entry> = Vec::new();
        let mut i: usize = 0;
        while i < self.entries.len()
            invariant
                self.wf(),
                rows == self@.rows,
                j < self.entries.len(),
                i <= self.entries.len(),
                rows[j as int].id == id,
                !rows[j as int].locked,
                out@.len() == i,
                forall|k: int|
                    0 <= k < i && k != j ==> row_views(out@)[k] == #[trigger] rows[k],
                i > j ==> row_views(out@)[j as int] == retagged(
                    rows[j as int],
                    tag@,
                    value as int,
                    opt_text(description),
                ),
            decreases self.entries.len() - i,
        {
            let e = &self.entries[i];
            if i == j {
                out.push(
                    Entry {
                        id: e.id,
                        date: e.date.clone(),
                        tag: tag.clone(),
                        value: value,
                        locked: e.locked,
                        description: crate::entry::copy_opt_text(&description),
                    },
                );
            } else {
                out.push(e.clone());
            }
            i += 1;
        }
        self.entries = out;
        proof {
            assert(final(self)@.rows =~= rows.update(
                j as int,
                retagged(rows[j as int], tag@, value as int, opt_text(description)),
            ));
            assert forall|a: int, b: int|
                0 <= a < final(self)@.rows.len() && 0 <= b < final(self)@.rows.len() && final(self)@.rows[a].date == final(self)@.rows[b].date implies final(self)@.rows[a].locked
                == final(self)@.rows[b].locked by {
                assert(rows[a].date == rows[b].date);
            }
        }
        Ok(true)
    }
}

} // verus!

verus! {

impl EntryStore {
    /// The distinct month keys of all stored dates, in descending
    /// lexicographic order — reverse chronological for ISO dates.
    pub fn get_months(&self) -> (r: Vec<String>)
        requires
            self.wf(),
        ensures
            strictly_desc(str_views(r@)),
            same_keys(str_views(r@), months_in_order(self@.rows)),
    {
        let ghost rows = self@.rows;
        let mut r: Vec<String> = Vec::new();
        let mut i: usize = 0;
        while i < self.entries.len()
            invariant
                self.wf(),
                rows == self@.rows,
                i <= self.entries.len(),
                strictly_desc(str_views(r@)),
                same_keys(str_views(r@), months_in_order(rows.take(i as int))),
            decreases self.entries.len() - i,
        {
            proof {
                assert(rows.take(i as int + 1) =~= rows.take(i as int).push(rows[i as int]));
                lemma_months_in_order_push(rows.take(i as int), rows[i as int]);
            }
            let mk = month_key(self.entries[i].date.as_str());
            let ghost mkv = mk@;
            let ghost prevr = r@;
            insert_sorted_distinct(&mut r, mk, true);
            proof {
                let mm = months_in_order(rows.take(i as int));
                let key = month_of(rows[i as int].date);
                assert(mkv == key);
                assert(adds_key(str_views(r@), str_views(prevr), key));
                if mm.contains(key) {
                    assert(months_in_order(rows.take(i as int + 1)) == mm);
                } else {
                    assert forall|x: Seq<char>|
                        months_in_order(rows.take(i as int + 1)).contains(x) <==> (mm.contains(x)
                            || x == key) by {
                        lemma_contains_push(mm, key, x);
                    }
                }
                assert(same_keys(str_views(r@), months_in_order(rows.take(i as int + 1))));
            }
            i += 1;
        }
        proof {
            assert(rows.take(rows.len() as int) =~= rows);
        }
        r
    }

    /// The distinct dates that hold at least one entry, in ascending
    /// lexicographic order — chronological for ISO dates.
    pub fn get_graph_data(&self) -> (r: Vec<String>)
        requires
            self.wf(),
        ensures
            strictly_asc(str_views(r@)),
            same_keys(str_views(r@), dates_in_order(self@.rows)),
    {
        let ghost rows = self@.rows;
        let mut r: Vec<String> = Vec::new();
        let mut i: usize = 0;
        while i < self.entries.len()
            invariant
                self.wf(),
                rows == self@.rows,
                i <= self.entries.len(),
                strictly_asc(str_views(r@)),
                same_keys(str_views(r@), dates_in_order(rows.take(i as int))),
            decreases self.entries.len() - i,
        {
            proof {
                assert(rows.take(i as int + 1) =~= rows.take(i as int).push(rows[i as int]));
                lemma_dates_in_order_push(rows.take(i as int), rows[i as int]);
            }
            let dk = self.entries[i].date.clone();
            let ghost dkv = dk@;
            let ghost prevr = r@;
            insert_sorted_distinct(&mut r, dk, false);
            proof {
                let dd = dates_in_order(rows.take(i as int));
                let key = rows[i as int].date;
                assert(dkv == key);
                assert(adds_key(str_views(r@), str_views(prevr), key));
                if dd.contains(key) {
                    assert(dates_in_order(rows.take(i as int + 1)) == dd);
                } else {
                    assert forall|x: Seq<char>|
                        dates_in_order(rows.take(i as int + 1)).contains(x) <==> (dd.contains(x)
                            || x == key) by {
                        lemma_contains_push(dd, key, x);
                    }
                }
                assert(same_keys(str_views(r@), dates_in_order(rows.take(i as int + 1))));
            }
            i += 1;
        }
        proof {
            assert(rows.take(rows.len() as int) =~= rows);
        }
        r
    }

    /// The sum of the values of the month's entries carrying `tag`.
    fn sum_tag_month(&self, month: &String, tag: &String) -> (t: i128)
        requires
            self.wf(),
        ensures
            t as int == sum_for_tag(month_rows(self@.rows, month@), tag@),
    {
        let ghost rows = self@.rows;
        let mut t: i128 = 0;
        let mut i: usize = 0;
        while i < self.entries.len()
            invariant
                self.wf(),
                rows == self@.rows,
                i <= self.entries.len(),
                t as int == sum_for_tag(month_rows(rows.take(i as int), month@), tag@),
                -(i as int) * 0x8000_0000_0000_0000 <= t as int,
                t as int <= (i as int) * 0x7FFF_FFFF_FFFF_FFFF,
            decreases self.entries.len() - i,
        {
            proof {
                assert(rows.take(i as int + 1) =~= rows.take(i as int).push(rows[i as int]));
                lemma_month_rows_push(rows.take(i as int), rows[i as int], month@);
                if month_of(rows[i as int].date) == month@ {
                    lemma_sum_for_tag_push(
                        month_rows(rows.take(i as int), month@),
                        rows[i as int],
                        tag@,
                    );
                }
            }
            let e = &self.entries[i];
            let mk = month_key(e.date.as_str());
            if mk.eq(month) && e.tag.eq(tag) {
                t = t + (e.value as i128);
            }
            i += 1;
        }
        proof {
            assert(rows.take(rows.len() as int) =~= rows);
        }
        t
    }

    /// The sum of the values of all the month's entries.
    fn sum_month(&self, month: &String) -> (t: i128)
        requires
            self.wf(),
        ensures
            t as int == sum_values(month_rows(self@.rows, month@)),
    {
        let ghost rows = self@.rows;
        let mut t: i128 = 0;
        let mut i: usize = 0;
        while i < self.entries.len()
            invariant
                self.wf(),
                rows == self@.rows,
                i <= self.entries.len(),
                t as int == sum_values(month_rows(rows.take(i as int), month@)),
                -(i as int) * 0x8000_0000_0000_0000 <= t as int,
                t as int <= (i as int) * 0x7FFF_FFFF_FFFF_FFFF,
            decreases self.entries.len() - i,
        {
            proof {
                assert(rows.take(i as int + 1) =~= rows.take(i as int).push(rows[i as int]));
                lemma_month_rows_push(rows.take(i as int), rows[i as int], month@);
                if month_of(rows[i as int].date) == month@ {
                    lemma_sum_values_push(month_rows(rows.take(i as int), month@), rows[i as int]);
                }
            }
            let e = &self.entries[i];
            let mk = month_key(e.date.as_str());
            if mk.eq(month) {
                t = t + (e.value as i128);
            }
            i += 1;
        }
        proof {
            assert(rows.take(rows.len() as int) =~= rows);
        }
        t
    }

    /// The month's per-tag totals: one pair per distinct tag, in order of
    /// first occurrence, each carrying the sum of that tag's values.
    #[verifier::rlimit(100)]
    pub fn get_monthly_total(&self, month: String) -> (r: Vec<TagTotal>)
        requires
            self.wf(),
        ensures
            tag_views(r@) == tags_in_order(month_rows(self@.rows, month@)),
            forall|k: int|
                0 <= k < r@.len() ==> (#[trigger] r@[k]).total as int == sum_for_tag(
                    month_rows(self@.rows, month@),
                    r@[k].tag@,
                ),
    {
        let ghost rows = self@.rows;
        let mut names: Vec<String> = Vec::new();
        let mut i: usize = 0;
        while i < self.entries.len()
            invariant
                self.wf(),
                rows == self@.rows,
                i <= self.entries.len(),
                str_views(names@) == tags_in_order(month_rows(rows.take(i as int), month@)),
            decreases self.entries.len() - i,
        {
            proof {
                assert(rows.take(i as int + 1) =~= rows.take(i as int).push(rows[i as int]));
                lemma_month_rows_push(rows.take(i as int), rows[i as int], month@);
                if month_of(rows[i as int].date) == month@ {
                    lemma_tags_in_order_push(
                        month_rows(rows.take(i as int), month@),
                        rows[i as int],
                    );
                }
            }
            let e = &self.entries[i];
            let mk = month_key(e.date.as_str());
            if mk.eq(&month) {
                if !vec_contains_str(&names, &e.tag) {
                    names.push(e.tag.clone());
                    proof {
                        assert(str_views(names@) =~= tags_in_order(
                            month_rows(rows.take(i as int), month@),
                        ).push(rows[i as int].tag));
                    }
                }
            }
            i += 1;
        }
        proof {
            assert(rows.take(rows.len() as int) =~= rows);
        }

        let mut r: Vec<TagTotal> = Vec::new();
        let mut k: usize = 0;
        while k < names.len()
            invariant
                self.wf(),
                rows == self@.rows,
                k <= names.len(),
                str_views(names@) == tags_in_order(month_rows(rows, month@)),
                tag_views(r@) == str_views(names@).take(k as int),
                forall|q: int|
                    0 <= q < r@.len() ==> (#[trigger] r@[q]).total as int == sum_for_tag(
                        month_rows(rows, month@),
                        r@[q].tag@,
                    ),
            decreases names.len() - k,
        {
            let t = self.sum_tag_month(&month, &names[k]);
            let nt = TagTotal { tag: names[k].clone(), total: t };
            proof {
                assert(nt.tag == names@[k as int]);
                assert(nt.total as int == sum_for_tag(month_rows(rows, month@), nt.tag@));
            }
            let ghost ntg = nt;
            let ghost rprev = r@;
            r.push(nt);
            proof {
                assert(r@ == rprev.push(ntg));
                assert(tag_views(rprev).len() == rprev.len());
                assert(tag_views(rprev) == str_views(names@).take(k as int));
                assert(rprev.len() == k as int);
                assert(r@[k as int] == ntg);
                assert(r@[k as int].tag@ == names@[k as int]@);
                assert(tag_views(r@) =~= str_views(names@).take(k as int + 1));
            }
            k += 1;
        }
        proof {
            assert(str_views(names@).take(names@.len() as int) =~= str_views(names@));
        }
        r
    }

    /// The month's per-tag totals together with the grand total of all its
    /// entries; an entry-less month yields no tags and a zero total.
    pub fn get_monthly_summary(&self, month: String) -> (r: MonthlySummary)
        requires
            self.wf(),
        ensures
            tag_views(r.tags@) == tags_in_order(month_rows(self@.rows, month@)),
            forall|k: int|
                0 <= k < r.tags@.len() ==> (#[trigger] r.tags@[k]).total as int == sum_for_tag(
                    month_rows(self@.rows, month@),
                    r.tags@[k].tag@,
                ),
            r.total as int == sum_values(month_rows(self@.rows, month@)),
    {
        let total = self.sum_month(&month);
        let tags = self.get_monthly_total(month);
        MonthlySummary { tags, total }
    }
}

} // verus!

verus! {

/// Whether entry `p` of the list carries a date no later than `d`, so the
/// scan for the insertion position moves past it.
fn scan_dates(list: &Vec<Entry>, d: &String, p: usize) -> (b: bool)
    requires
        p < list@.len(),
    ensures
        b == !lex_lt(d@, row_views(list@)[p as int].date),
{
    proof {
        assert(row_views(list@)[p as int] == list@[p as int]@);
    }
    str_compare(list[p].date.as_str(), d.as_str()) != StrCmp::Gt
}

impl EntryStore {
    /// All entries of the month, ordered by date (lexicographically) and
    /// then by identity, both ascending.
    #[verifier::rlimit(100)]
    pub fn get_monthly_entries(&self, month: String) -> (r: Vec<Entry>)
        requires
            self.wf(),
        ensures
            sorted_by_date_then_id(row_views(r@)),
            row_views(r@).to_multiset() == month_rows(self@.rows, month@).to_multiset(),
    {
        broadcast use vstd::seq_lib::group_to_multiset_ensures;

        let ghost rows = self@.rows;
        let mut r: Vec<Entry> = Vec::new();
        proof {
            assert(row_views(r@) =~= Seq::<EntryModel>::empty());
            assert(month_rows(rows.take(0), month@) =~= Seq::<EntryModel>::empty());
        }
        let mut i: usize = 0;
        while i < self.entries.len()
            invariant
                self.wf(),
                rows == self@.rows,
                i <= self.entries.len(),
                sorted_by_date_then_id(row_views(r@)),
                row_views(r@).to_multiset() == month_rows(rows.take(i as int), month@)
                    .to_multiset(),
                forall|q: int|
                    0 <= q < row_views(r@).len() && (i as int) < rows.len() ==> (
                    #[trigger] row_views(r@)[q]).id < rows[i as int].id,
            decreases self.entries.len() - i,
        {
            broadcast use vstd::seq_lib::group_to_multiset_ensures;

            proof {
                assert(rows.take(i as int + 1) =~= rows.take(i as int).push(rows[i as int]));
                lemma_month_rows_push(rows.take(i as int), rows[i as int], month@);
            }
            let e = &self.entries[i];
            let mk = month_key(e.date.as_str());
            if mk.eq(&month) {
                let mut p: usize = 0;
                while p < r.len() && scan_dates(&r, &e.date, p)
                    invariant
                        p <= r@.len(),
                        rows == self@.rows,
                        i < self.entries.len(),
                        e == &self.entries@[i as int],
                        forall|q: int|
                            0 <= q < p ==> !lex_lt(
                                rows[i as int].date,
                                (#[trigger] row_views(r@)[q]).date,
                            ),
                    decreases r@.len() - p,
                {
                    p += 1;
                }
                let en = e.clone();
                let ghost em = en@;
                let ghost eng = en;
                let ghost rprev = r@;
                r.insert(p, en);
                proof {
                    assert(em == rows[i as int]);
                    assert(r@ == rprev.insert(p as int, eng));
                    rprev.insert_ensures(p as int, eng);
                    let post = row_views(r@);
                    let prev = row_views(rprev);
                    assert(post.len() == prev.len() + 1);
                    assert forall|w: int| 0 <= w < post.len() implies post[w] == (if w < p {
                        prev[w]
                    } else if w == p {
                        em
                    } else {
                        prev[w - 1]
                    }) by {
                        if w < p {
                            assert(r@[w] == rprev[w]);
                        } else if w > p {
                            assert(r@[w] == rprev[w - 1]);
                        }
                    }
                    if (p as int) < prev.len() {
                        assert(lex_lt(em.date, prev[p as int].date));
                    }
                    assert forall|a: int, b: int| 0 <= a < b < post.len() implies (lex_lt(
                        post[a].date,
                        post[b].date,
                    ) || (post[a].date == post[b].date && post[a].id < post[b].id)) by {
                        if b < p {
                        } else if a < p && b == p {
                            crate::lex::lemma_lex_total(prev[a].date, em.date);
                        } else if a == p && b > p {
                            if b - 1 > p {
                                if prev[p as int].date == prev[b - 1].date {
                                } else {
                                    crate::lex::lemma_lex_transitive(
                                        em.date,
                                        prev[p as int].date,
                                        prev[b - 1].date,
                                    );
                                }
                            }
                        } else if a < p && b > p {
                        } else {
                        }
                    }
                    assert(post.remove(p as int) =~= prev);
                    assert(post[p as int] == em);
                    assert(post.contains(em));
                    assert(post.to_multiset().count(em) > 0);
                    assert(post.remove(p as int).to_multiset() == post.to_multiset().remove(
                        post[p as int],
                    ));
                    assert(post.to_multiset() =~= post.to_multiset().remove(em).insert(em));
                    assert(post.to_multiset() == month_rows(rows.take(i as int), month@)
                        .to_multiset().insert(rows[i as int]));
                    assert(month_rows(rows.take(i as int + 1), month@) == month_rows(
                        rows.take(i as int),
                        month@,
                    ).push(rows[i as int]));
                    assert(month_rows(rows.take(i as int + 1), month@).to_multiset() == month_rows(
                        rows.take(i as int),
                        month@,
                    ).to_multiset().insert(rows[i as int]));
                    if i as int + 1 < rows.len() {
                        assert(rows[i as int].id < rows[i as int + 1].id);
                        assert forall|q: int| 0 <= q < post.len() implies (#[trigger] post[q]).id
                            < rows[i as int + 1].id by {
                            if q < p {
                                assert(post[q] == prev[q]);
                            } else if q > p {
                                assert(post[q] == prev[q - 1]);
                            }
                        }
                    }
                }
            } else {
                proof {
                    if i as int + 1 < rows.len() {
                        assert(rows[i as int].id < rows[i as int + 1].id);
                        assert forall|q: int|
                            0 <= q < row_views(r@).len() implies (#[trigger] row_views(r@)[q]).id
                            < rows[i as int + 1].id by {}
                    }
                }
            }
            i += 1;
        }
        proof {
            assert(rows.take(rows.len() as int) =~= rows);
        }
        r
    }
}

} // verus!
