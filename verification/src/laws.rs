//! Properties that relate the store's operations to one another, proved
//! over the mathematical models that the operations' contracts use.

use vstd::prelude::*;
use crate::entry::{
    day_locked, entries_for, entries_outside, fresh_rows, lemma_contains_push,
    lemma_day_locked_exists, lemma_entries_outside_props, lemma_sum_for_tag_push,
    lemma_tags_in_order_contains, lemma_tags_in_order_distinct, month_rows, sum_for_tag,
    sum_values, tags_in_order, EntryModel, RequestModel,
};
use crate::store::lock_model;
use crate::tags::without;

verus! {

/// Entries of one day in a concatenation: the two parts contribute in
/// order.
proof fn lemma_entries_for_concat(a: Seq<EntryModel>, b: Seq<EntryModel>, date: Seq<char>)
    ensures
        entries_for(a + b, date) == entries_for(a, date) + entries_for(b, date),
    decreases b.len(),
{
    if b.len() == 0 {
        assert(a + b =~= a);
        assert(entries_for(a, date) + entries_for(b, date) =~= entries_for(a, date));
    } else {
        lemma_entries_for_concat(a, b.drop_last(), date);
        assert((a + b).drop_last() =~= a + b.drop_last());
        assert((a + b).last() == b.last());
        if b.last().date == date {
            assert(entries_for(a, date) + entries_for(b, date) =~= (entries_for(a, date)
                + entries_for(b.drop_last(), date)).push(b.last()));
        }
    }
}

/// Lock state of a day over a concatenation.
proof fn lemma_day_locked_concat(a: Seq<EntryModel>, b: Seq<EntryModel>, date: Seq<char>)
    ensures
        day_locked(a + b, date) == (day_locked(a, date) || day_locked(b, date)),
    decreases b.len(),
{
    if b.len() == 0 {
        assert(a + b =~= a);
    } else {
        lemma_day_locked_concat(a, b.drop_last(), date);
        assert((a + b).drop_last() =~= a + b.drop_last());
        assert((a + b).last() == b.last());
    }
}

/// A sequence in which no entry belongs to `date` contributes nothing to
/// that day.
proof fn lemma_entries_for_none(s: Seq<EntryModel>, date: Seq<char>)
    requires
        forall|k: int| 0 <= k < s.len() ==> (#[trigger] s[k]).date != date,
    ensures
        entries_for(s, date) == Seq::<EntryModel>::empty(),
        !day_locked(s, date),
    decreases s.len(),
{
    if s.len() > 0 {
        assert forall|k: int| 0 <= k < s.drop_last().len() implies (#[trigger] s.drop_last()[k]).date
            != date by {
            assert(s[k].date != date);
        }
        lemma_entries_for_none(s.drop_last(), date);
        assert(s[s.len() - 1].date != date);
    }
}

/// A sequence in which every entry belongs to `date` is returned whole,
/// and it is unlocked when none of its entries carries the flag.
proof fn lemma_entries_for_all(s: Seq<EntryModel>, date: Seq<char>)
    requires
        forall|k: int| 0 <= k < s.len() ==> (#[trigger] s[k]).date == date,
        forall|k: int| 0 <= k < s.len() ==> !(#[trigger] s[k]).locked,
    ensures
        entries_for(s, date) == s,
        !day_locked(s, date),
    decreases s.len(),
{
    if s.len() == 0 {
        assert(entries_for(s, date) =~= s);
    } else {
        assert forall|k: int| 0 <= k < s.drop_last().len() implies (#[trigger] s.drop_last()[k]).date
            == date && !s.drop_last()[k].locked by {
            assert(s[k].date == date && !s[k].locked);
        }
        lemma_entries_for_all(s.drop_last(), date);
        assert(s[s.len() - 1].date == date);
        assert(entries_for(s, date) =~= s);
    }
}

/// After a successful whole-day write, listing the day returns exactly the
/// written rows — the requested set under fresh consecutive identities —
/// and the day is unlocked.
pub proof fn lemma_replace_then_list(
    rows: Seq<EntryModel>,
    reqs: Seq<RequestModel>,
    date: Seq<char>,
    base: int,
)
    ensures
        entries_for(entries_outside(rows, date) + fresh_rows(reqs, date, base), date)
            == fresh_rows(reqs, date, base),
        !day_locked(entries_outside(rows, date) + fresh_rows(reqs, date, base), date),
{
    let kept = entries_outside(rows, date);
    let fresh = fresh_rows(reqs, date, base);
    lemma_entries_outside_props(rows, date);
    lemma_entries_for_none(kept, date);
    assert forall|k: int| 0 <= k < fresh.len() implies (#[trigger] fresh[k]).date == date
        && !fresh[k].locked by {}
    lemma_entries_for_all(fresh, date);
    lemma_entries_for_concat(kept, fresh, date);
    assert(entries_for(kept, date) + entries_for(fresh, date) =~= fresh);
    lemma_day_locked_concat(kept, fresh, date);
}

/// Locking a day twice has the same effect as locking it once: the lock
/// transition is idempotent on every row.
pub proof fn lemma_lock_day_idempotent(e: EntryModel, date: Seq<char>)
    ensures
        lock_model(lock_model(e, date), date) == lock_model(e, date),
{
}

/// Two successive lock transitions of the same day leave exactly the rows
/// the first one produced: the second `lock_day` changes nothing.
pub proof fn lemma_lock_rows_idempotent(
    rows1: Seq<EntryModel>,
    rows2: Seq<EntryModel>,
    rows3: Seq<EntryModel>,
    date: Seq<char>,
)
    requires
        rows2.len() == rows1.len(),
        forall|i: int|
            0 <= i < rows1.len() ==> rows2[i] == lock_model(#[trigger] rows1[i], date),
        rows3.len() == rows2.len(),
        forall|i: int|
            0 <= i < rows2.len() ==> rows3[i] == lock_model(#[trigger] rows2[i], date),
    ensures
        rows3 == rows2,
{
    assert forall|i: int| 0 <= i < rows3.len() implies rows3[i] == rows2[i] by {
        assert(rows2[i] == lock_model(rows1[i], date));
        assert(rows3[i] == lock_model(rows2[i], date));
    }
    assert(rows3 =~= rows2);
}

/// After `lock_day`, a day that holds at least one entry is locked, so a
/// whole-day write of that day must fail and leave the rows unchanged.
pub proof fn lemma_locked_day_blocks_replace(
    rows: Seq<EntryModel>,
    locked_rows: Seq<EntryModel>,
    date: Seq<char>,
)
    requires
        locked_rows.len() == rows.len(),
        forall|i: int|
            0 <= i < rows.len() ==> locked_rows[i] == lock_model(#[trigger] rows[i], date),
        exists|i: int| 0 <= i < rows.len() && (#[trigger] rows[i]).date == date,
    ensures
        day_locked(locked_rows, date),
{
    let i = choose|i: int| 0 <= i < rows.len() && (#[trigger] rows[i]).date == date;
    assert(locked_rows[i].date == date && locked_rows[i].locked);
    lemma_day_locked_exists(locked_rows, date);
}

/// After `lock_day`, every entry of that day carries the lock flag under
/// its old identity, so a single-entry update of it must fail and leave
/// the row unchanged.
pub proof fn lemma_locked_day_blocks_update(
    rows: Seq<EntryModel>,
    locked_rows: Seq<EntryModel>,
    date: Seq<char>,
    i: int,
)
    requires
        locked_rows.len() == rows.len(),
        forall|k: int|
            0 <= k < rows.len() ==> locked_rows[k] == lock_model(#[trigger] rows[k], date),
        0 <= i < rows.len(),
        rows[i].date == date,
    ensures
        locked_rows[i].locked,
        locked_rows[i].id == rows[i].id,
{
}

/// The sum of the per-tag totals over a tag list.
pub open spec fn sum_over_tags(rows: Seq<EntryModel>, tags: Seq<Seq<char>>) -> int
    decreases tags.len(),
{
    if tags.len() == 0 {
        0
    } else {
        sum_over_tags(rows, tags.drop_last()) + sum_for_tag(rows, tags.last())
    }
}

/// Appending a row adds its value to exactly one per-tag total, when its
/// tag is listed.
proof fn lemma_sum_over_tags_push_row(
    rows: Seq<EntryModel>,
    e: EntryModel,
    tags: Seq<Seq<char>>,
)
    requires
        forall|a: int, b: int| 0 <= a < b < tags.len() ==> tags[a] != tags[b],
    ensures
        sum_over_tags(rows.push(e), tags) == sum_over_tags(rows, tags) + (if tags.contains(
            e.tag,
        ) {
            e.value
        } else {
            0
        }),
    decreases tags.len(),
{
    if tags.len() == 0 {
    } else {
        let tp = tags.drop_last();
        assert forall|a: int, b: int| 0 <= a < b < tp.len() implies tp[a] != tp[b] by {
            assert(tags[a] != tags[b]);
        }
        lemma_sum_over_tags_push_row(rows, e, tp);
        lemma_sum_for_tag_push(rows, e, tags.last());
        assert(tags =~= tp.push(tags.last()));
        lemma_contains_push(tp, tags.last(), e.tag);
        if tags.last() == e.tag {
            if tp.contains(e.tag) {
                let w = choose|w: int| 0 <= w < tp.len() && tp[w] == e.tag;
                assert(tags[w] == tags[tags.len() - 1]);
            }
        }
    }
}

/// A tag no row carries sums to zero.
proof fn lemma_no_tag_sum_zero(rows: Seq<EntryModel>, t: Seq<char>)
    requires
        forall|i: int| 0 <= i < rows.len() ==> (#[trigger] rows[i]).tag != t,
    ensures
        sum_for_tag(rows, t) == 0,
    decreases rows.len(),
{
    if rows.len() > 0 {
        assert forall|i: int|
            0 <= i < rows.drop_last().len() implies (#[trigger] rows.drop_last()[i]).tag != t by {
            assert(rows[i].tag != t);
        }
        lemma_no_tag_sum_zero(rows.drop_last(), t);
        assert(rows[rows.len() - 1].tag != t);
    }
}

/// The grand total of a row sequence is the sum of its per-tag totals over
/// its distinct tags: the tags partition the rows.
pub proof fn lemma_sum_partition(rows: Seq<EntryModel>)
    ensures
        sum_values(rows) == sum_over_tags(rows, tags_in_order(rows)),
    decreases rows.len(),
{
    if rows.len() > 0 {
        let prefix = rows.drop_last();
        let e = rows.last();
        lemma_sum_partition(prefix);
        lemma_tags_in_order_distinct(prefix);
        let tp = tags_in_order(prefix);
        assert(rows =~= prefix.push(e));
        lemma_sum_over_tags_push_row(prefix, e, tp);
        if tp.contains(e.tag) {
            assert(tags_in_order(rows) == tp);
        } else {
            assert(tags_in_order(rows) == tp.push(e.tag));
            assert(tp.push(e.tag).drop_last() =~= tp);
            lemma_sum_for_tag_push(prefix, e, e.tag);
            lemma_tags_in_order_contains(prefix, e.tag);
            assert forall|i: int|
                0 <= i < prefix.len() implies (#[trigger] prefix[i]).tag != e.tag by {
                if prefix[i].tag == e.tag {
                    assert(exists|k: int|
                        0 <= k < prefix.len() && (#[trigger] prefix[k]).tag == e.tag);
                }
            }
            lemma_no_tag_sum_zero(prefix, e.tag);
        }
    }
}

/// The monthly summary's grand total equals the sum of its per-tag
/// totals: summing a month's entries by tag loses nothing.
pub proof fn lemma_summary_partitions_total(rows: Seq<EntryModel>, month: Seq<char>)
    ensures
        sum_values(month_rows(rows, month)) == sum_over_tags(
            month_rows(rows, month),
            tags_in_order(month_rows(rows, month)),
        ),
{
    lemma_sum_partition(month_rows(rows, month));
}

/// Adding a tag makes it available and maps it to the supplied color,
/// while a sequence that already holds the tag is left as it is — so
/// adding the same tag a second time does not duplicate it.
pub proof fn lemma_add_tag_once(
    tags: Seq<Seq<char>>,
    colors: Map<Seq<char>, Seq<char>>,
    t: Seq<char>,
    c: Seq<char>,
)
    ensures
        (if tags.contains(t) {
            tags
        } else {
            tags.push(t)
        }).contains(t),
        colors.insert(t, c)[t] == c,
        tags.contains(t) ==> (if tags.contains(t) {
            tags
        } else {
            tags.push(t)
        }) == tags,
{
    lemma_contains_push(tags, t, t);
}

/// A sequence free of `t` is left alone by `without`.
proof fn lemma_without_absent(tags: Seq<Seq<char>>, t: Seq<char>)
    requires
        forall|k: int| 0 <= k < tags.len() ==> #[trigger] tags[k] != t,
    ensures
        without(tags, t) == tags,
    decreases tags.len(),
{
    if tags.len() == 0 {
        assert(without(tags, t) =~= tags);
    } else {
        assert forall|k: int|
            0 <= k < tags.drop_last().len() implies #[trigger] tags.drop_last()[k] != t by {
            assert(tags[k] != t);
        }
        lemma_without_absent(tags.drop_last(), t);
        assert(tags[tags.len() - 1] != t);
        assert(without(tags, t) =~= tags);
    }
}

/// Removing a tag deletes it from the sequence and from the color map, and
/// removing it again changes nothing.
pub proof fn lemma_remove_tag_idempotent(
    tags: Seq<Seq<char>>,
    colors: Map<Seq<char>, Seq<char>>,
    t: Seq<char>,
)
    ensures
        !without(tags, t).contains(t),
        without(without(tags, t), t) == without(tags, t),
        !colors.remove(t).dom().contains(t),
        colors.remove(t).remove(t) == colors.remove(t),
{
    crate::tags::lemma_without_props(tags, t);
    if without(tags, t).contains(t) {
        let w = choose|w: int|
            0 <= w < without(tags, t).len() && without(tags, t)[w] == t;
        assert(without(tags, t)[w] != t);
    }
    lemma_without_absent(without(tags, t), t);
    assert(colors.remove(t).remove(t) =~= colors.remove(t));
}

} // verus!

verus! {

/// Removing the entry at `i` subtracts its value from the grand total.
proof fn lemma_sum_values_remove(s: Seq<EntryModel>, i: int)
    requires
        0 <= i < s.len(),
    ensures
        sum_values(s.remove(i)) == sum_values(s) - s[i].value,
    decreases s.len(),
{
    if i == s.len() - 1 {
        assert(s.remove(i) =~= s.drop_last());
    } else {
        assert(s.remove(i).drop_last() =~= s.drop_last().remove(i));
        lemma_sum_values_remove(s.drop_last(), i);
        assert(s.remove(i).last() == s.last());
    }
}

/// Removing the entry at `i` subtracts its contribution from a per-tag
/// total.
proof fn lemma_sum_for_tag_remove(s: Seq<EntryModel>, i: int, t: Seq<char>)
    requires
        0 <= i < s.len(),
    ensures
        sum_for_tag(s.remove(i), t) == sum_for_tag(s, t) - (if s[i].tag == t {
            s[i].value
        } else {
            0
        }),
    decreases s.len(),
{
    if i == s.len() - 1 {
        assert(s.remove(i) =~= s.drop_last());
    } else {
        assert(s.remove(i).drop_last() =~= s.drop_last().remove(i));
        lemma_sum_for_tag_remove(s.drop_last(), i, t);
        assert(s.remove(i).last() == s.last());
    }
}

/// Sequences holding the same entries — the same multiset — have the same
/// grand total and the same per-tag totals: every ordering of a month's
/// listing yields the sums the summary reports.
pub proof fn lemma_sums_respect_multiset(s1: Seq<EntryModel>, s2: Seq<EntryModel>)
    requires
        s1.to_multiset() == s2.to_multiset(),
    ensures
        sum_values(s1) == sum_values(s2),
        forall|t: Seq<char>| sum_for_tag(s1, t) == sum_for_tag(s2, t),
    decreases s1.len(),
{
    broadcast use vstd::seq_lib::group_to_multiset_ensures;

    if s1.len() == 0 {
        assert(s1.to_multiset().len() == s1.len());
        assert(s2.to_multiset().len() == s2.len());
        assert(s2.len() == 0);
    } else {
        let e = s1.last();
        assert(s1.drop_last().push(e) =~= s1);
        assert(s1.contains(s1[s1.len() - 1]));
        assert(s2.to_multiset().count(e) > 0);
        assert(s2.contains(e));
        let j = choose|j: int| 0 <= j < s2.len() && s2[j] == e;
        assert(s1.drop_last().to_multiset() =~= s1.to_multiset().remove(e)) by {
            assert(s1.drop_last().push(e).to_multiset() == s1.drop_last().to_multiset().insert(
                e,
            ));
        }
        assert(s2.remove(j).to_multiset() == s2.to_multiset().remove(s2[j]));
        assert(s1.drop_last().to_multiset() == s2.remove(j).to_multiset());
        lemma_sums_respect_multiset(s1.drop_last(), s2.remove(j));
        lemma_sum_values_remove(s2, j);
        assert forall|t: Seq<char>| sum_for_tag(s1, t) == sum_for_tag(s2, t) by {
            lemma_sum_for_tag_remove(s2, j, t);
        }
    }
}

/// The monthly summary is derivable from the monthly entry listing: any
/// sequence holding exactly the month's entries gives the same per-tag
/// totals and the same grand total as the summary's own.
pub proof fn lemma_summary_derivable_from_listing(
    rows: Seq<EntryModel>,
    listing: Seq<EntryModel>,
    month: Seq<char>,
)
    requires
        listing.to_multiset() == month_rows(rows, month).to_multiset(),
    ensures
        sum_values(listing) == sum_values(month_rows(rows, month)),
        forall|t: Seq<char>|
            sum_for_tag(listing, t) == sum_for_tag(month_rows(rows, month), t),
{
    lemma_sums_respect_multiset(listing, month_rows(rows, month));
}

} // verus!
