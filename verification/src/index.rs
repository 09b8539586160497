//! Sorted indices over location entries: how one is built from the facts in
//! the order they arrived, and how it is searched.

use crate::location::{entry_views, EntryView, IndexKey, LocationEntry};
use vstd::prelude::*;

verus! {

/// The test that an entry has the key `k` in the index `by`.
pub open spec fn has_key(by: IndexKey, k: int) -> spec_fn(EntryView) -> bool {
    |e: EntryView| e.key(by) == k
}

/// The keys of `s` never fall.
pub open spec fn sorted(s: Seq<EntryView>, by: IndexKey) -> bool {
    forall|i: int, j: int| 0 <= i <= j < s.len() ==> s[i].key(by) <= s[j].key(by)
}

/// The keys of `s` rise from each entry to the next: `s` is ordered and no
/// key occurs twice.
pub open spec fn strictly_increasing(s: Seq<EntryView>, by: IndexKey) -> bool {
    forall|i: int, j: int| 0 <= i < j < s.len() ==> s[i].key(by) < s[j].key(by)
}

/// The first of `facts` that has the key `k`, if any has.
pub open spec fn first_with_key(facts: Seq<EntryView>, by: IndexKey, k: int) -> Option<EntryView> {
    let found = facts.filter(has_key(by, k));
    if found.len() > 0 {
        Some(found[0])
    } else {
        None
    }
}

/// One of the entries of `s` has the key `k`.
pub open spec fn holds_key(s: Seq<EntryView>, by: IndexKey, k: int) -> bool {
    exists|i: int| 0 <= i < s.len() && (#[trigger] s[i]).key(by) == k
}

/// `index` is the index of `facts` by the key `by`: its keys rise strictly,
/// it holds each key of `facts`, and under each key the first fact that
/// arrived with it.
pub open spec fn is_index_of(index: Seq<EntryView>, facts: Seq<EntryView>, by: IndexKey) -> bool {
    &&& strictly_increasing(index, by)
    &&& forall|i: int|
        0 <= i < index.len() ==> first_with_key(facts, by, (#[trigger] index[i]).key(by)) == Some(
            index[i],
        )
    &&& forall|m: int| 0 <= m < facts.len() ==> holds_key(index, by, (#[trigger] facts[m]).key(by))
}

/// `after` is `before` in the order of a stable sort by `by`: the keys never
/// fall, and the entries of each key are those of `before`, in the order they
/// had there.
pub open spec fn is_stable_sort_of(after: Seq<EntryView>, before: Seq<EntryView>, by: IndexKey) -> bool {
    &&& after.len() == before.len()
    &&& sorted(after, by)
    &&& forall|k: int| #[trigger] after.filter(has_key(by, k)) == before.filter(has_key(by, k))
}

/// `kept` is `s` without the entries that repeat the key of the entry before
/// them. `origin` says where in `s` each entry of `kept` stands.
pub open spec fn is_dedup_of(
    kept: Seq<EntryView>,
    s: Seq<EntryView>,
    by: IndexKey,
    origin: Seq<int>,
) -> bool {
    &&& origin.len() == kept.len()
    &&& forall|a: int|
        0 <= a < kept.len() ==> {
            &&& 0 <= #[trigger] origin[a] < s.len()
            &&& kept[a] == s[origin[a]]
            &&& forall|j: int| 0 <= j < origin[a] ==> #[trigger] s[j].key(by) != kept[a].key(by)
        }
    &&& forall|j: int| 0 <= j < s.len() ==> holds_key(kept, by, (#[trigger] s[j]).key(by))
}

/// Where `s[j]` has the key `k` and no entry before it has, it is the first
/// of the entries of `s` with that key.
pub proof fn lemma_first_with_key(s: Seq<EntryView>, by: IndexKey, j: int)
    requires
        0 <= j < s.len(),
        forall|i: int| 0 <= i < j ==> #[trigger] s[i].key(by) != s[j].key(by),
    ensures
        first_with_key(s, by, s[j].key(by)) == Some(s[j]),
{
    let test = has_key(by, s[j].key(by));
    let front = s.take(j);
    let back = s.skip(j + 1);
    assert(s =~= front + (seq![s[j]] + back));
    assert(front.all(|e: EntryView| !test(e))) by {
        assert forall|i: int| 0 <= i < front.len() implies !test(#[trigger] front[i]) by {
            assert(front[i] == s[i]);
        }
    }
    front.lemma_all_neg_filter_empty(test);
    back.lemma_filter_prepend(s[j], test);
    Seq::filter_distributes_over_add(front, seq![s[j]] + back, test);
    assert(test(s[j]));
    assert(s.filter(test) =~= seq![s[j]] + back.filter(test));
}

/// A filter by the key of an entry of `s` keeps at least one entry.
pub proof fn lemma_key_present(s: Seq<EntryView>, by: IndexKey, m: int)
    requires
        0 <= m < s.len(),
    ensures
        s.filter(has_key(by, s[m].key(by))).len() > 0,
{
    let test = has_key(by, s[m].key(by));
    assert(test(s[m]));
    s.lemma_filter_contains(test, m);
}

/// Where a filter by `k` keeps an entry, `s` holds an entry with the key `k`.
pub proof fn lemma_key_found(s: Seq<EntryView>, by: IndexKey, k: int) -> (j: int)
    requires
        s.filter(has_key(by, k)).len() > 0,
    ensures
        0 <= j < s.len(),
        s[j].key(by) == k,
{
    let test = has_key(by, k);
    let found = s.filter(test);
    s.lemma_filter_pred(test, 0);
    assert(found.contains(found[0]));
    s.lemma_filter_contains_rev(test, found[0]);
    let j = choose|j: int| 0 <= j < s.len() && s[j] == found[0];
    j
}

/// Sorting the facts stably and dropping the entries that repeat a key gives
/// their index.
pub proof fn lemma_sort_dedup_is_index(
    facts: Seq<EntryView>,
    ordered: Seq<EntryView>,
    kept: Seq<EntryView>,
    by: IndexKey,
    origin: Seq<int>,
)
    requires
        is_stable_sort_of(ordered, facts, by),
        strictly_increasing(kept, by),
        is_dedup_of(kept, ordered, by, origin),
    ensures
        is_index_of(kept, facts, by),
{
    assert forall|i: int| 0 <= i < kept.len() implies first_with_key(
        facts,
        by,
        (#[trigger] kept[i]).key(by),
    ) == Some(kept[i]) by {
        let j = origin[i];
        assert(kept[i] == ordered[j]);
        lemma_first_with_key(ordered, by, j);
        assert(ordered.filter(has_key(by, kept[i].key(by))) == facts.filter(
            has_key(by, kept[i].key(by)),
        ));
    }
    assert forall|m: int| 0 <= m < facts.len() implies holds_key(
        kept,
        by,
        (#[trigger] facts[m]).key(by),
    ) by {
        let k = facts[m].key(by);
        lemma_key_present(facts, by, m);
        assert(ordered.filter(has_key(by, k)) == facts.filter(has_key(by, k)));
        let j = lemma_key_found(ordered, by, k);
        assert(holds_key(kept, by, ordered[j].key(by)));
    }
}

/// The entries of `s` with the key `k`, in their order.
pub open spec fn with_key(s: Seq<EntryView>, by: IndexKey, k: int) -> Seq<EntryView> {
    s.filter(has_key(by, k))
}

/// Merges two runs that are in the order of their keys into one. Of two
/// entries with one key, that of `left` comes first.
fn merge(left: &Vec<LocationEntry>, right: &Vec<LocationEntry>, by: IndexKey) -> (merged: Vec<
    LocationEntry,
>)
    requires
        sorted(entry_views(left@), by),
        sorted(entry_views(right@), by),
    ensures
        merged@.len() == left@.len() + right@.len(),
        sorted(entry_views(merged@), by),
        forall|k: int| #[trigger]
            with_key(entry_views(merged@), by, k) == with_key(entry_views(left@), by, k) + with_key(
                entry_views(right@),
                by,
                k,
            ),
{
    let ghost l = entry_views(left@);
    let ghost r = entry_views(right@);
    let mut merged: Vec<LocationEntry> = Vec::new();
    let mut i: usize = 0;
    let mut j: usize = 0;
    proof {
        assert(l.take(0) =~= Seq::<EntryView>::empty());
        assert(r.take(0) =~= Seq::<EntryView>::empty());
        assert forall|k: int| #[trigger]
            with_key(entry_views(merged@), by, k) == with_key(l.take(0), by, k) + with_key(
                r.take(0),
                by,
                k,
            ) by {
            assert(entry_views(merged@) =~= Seq::<EntryView>::empty());
            assert(with_key(Seq::<EntryView>::empty(), by, k) =~= Seq::<EntryView>::empty()) by {
                Seq::<EntryView>::empty().lemma_filter_len(has_key(by, k));
            }
        }
    }
    while i < left.len() || j < right.len()
        invariant
            i <= left.len(),
            j <= right.len(),
            l == entry_views(left@),
            r == entry_views(right@),
            sorted(l, by),
            sorted(r, by),
            merged@.len() == i + j,
            sorted(entry_views(merged@), by),
            forall|a: int|
                0 <= a < merged@.len() && i < l.len() ==> (#[trigger] entry_views(merged@)[a]).key(
                    by,
                ) <= l[i as int].key(by),
            forall|a: int|
                0 <= a < merged@.len() && j < r.len() ==> (#[trigger] entry_views(merged@)[a]).key(
                    by,
                ) <= r[j as int].key(by),
            forall|b: int| 0 <= b < j && i < l.len() ==> (#[trigger] r[b]).key(by) < l[i as int].key(by),
            forall|k: int| #[trigger]
                with_key(entry_views(merged@), by, k) == with_key(l.take(i as int), by, k)
                    + with_key(r.take(j as int), by, k),
        decreases left.len() - i + (right.len() - j),
    {
        let ghost before = entry_views(merged@);
        let from_left = if j >= right.len() {
            true
        } else if i >= left.len() {
            false
        } else {
            left[i].key(by) <= right[j].key(by)
        };
        if from_left {
            let entry = left[i].clone();
            merged.push(entry);
            proof {
                let e = l[i as int];
                let after = entry_views(merged@);
                assert(after =~= before.push(e));
                assert(l.take(i + 1) =~= l.take(i as int).push(e));
                assert forall|k: int| #[trigger]
                    with_key(after, by, k) == with_key(l.take(i + 1), by, k) + with_key(
                        r.take(j as int),
                        by,
                        k,
                    ) by {
                    let test = has_key(by, k);
                    before.lemma_filter_push(e, test);
                    l.take(i as int).lemma_filter_push(e, test);
                    assert(with_key(before, by, k) == with_key(l.take(i as int), by, k) + with_key(
                        r.take(j as int),
                        by,
                        k,
                    ));
                    if test(e) {
                        let taken = r.take(j as int);
                        assert(taken.all(|x: EntryView| !test(x))) by {
                            assert forall|b: int| 0 <= b < taken.len() implies !test(
                                #[trigger] taken[b],
                            ) by {
                                assert(taken[b] == r[b]);
                            }
                        }
                        taken.lemma_all_neg_filter_empty(test);
                        assert(with_key(after, by, k) =~= with_key(l.take(i + 1), by, k)
                            + with_key(taken, by, k));
                    }
                }
                assert forall|a: int, b: int| 0 <= a <= b < after.len() implies after[a].key(by)
                    <= after[b].key(by) by {
                    if b < before.len() {
                        assert(after[a] == before[a] && after[b] == before[b]);
                    } else if a < before.len() {
                        assert(after[a] == before[a]);
                    }
                }
                assert forall|a: int| 0 <= a < after.len() && i + 1 < l.len() implies (
                #[trigger] after[a]).key(by) <= l[i + 1].key(by) by {
                    if a < before.len() {
                        assert(after[a] == before[a]);
                    }
                }
                assert forall|a: int| 0 <= a < after.len() && j < r.len() implies (
                #[trigger] after[a]).key(by) <= r[j as int].key(by) by {
                    if a < before.len() {
                        assert(after[a] == before[a]);
                    }
                }
            }
            i = i + 1;
        } else {
            let entry = right[j].clone();
            merged.push(entry);
            proof {
                let e = r[j as int];
                let after = entry_views(merged@);
                assert(after =~= before.push(e));
                assert(r.take(j + 1) =~= r.take(j as int).push(e));
                assert forall|k: int| #[trigger]
                    with_key(after, by, k) == with_key(l.take(i as int), by, k) + with_key(
                        r.take(j + 1),
                        by,
                        k,
                    ) by {
                    let test = has_key(by, k);
                    before.lemma_filter_push(e, test);
                    r.take(j as int).lemma_filter_push(e, test);
                    assert(with_key(before, by, k) == with_key(l.take(i as int), by, k) + with_key(
                        r.take(j as int),
                        by,
                        k,
                    ));
                    assert(with_key(after, by, k) =~= with_key(l.take(i as int), by, k) + with_key(
                        r.take(j + 1),
                        by,
                        k,
                    ));
                }
                assert forall|a: int, b: int| 0 <= a <= b < after.len() implies after[a].key(by)
                    <= after[b].key(by) by {
                    if b < before.len() {
                        assert(after[a] == before[a] && after[b] == before[b]);
                    } else if a < before.len() {
                        assert(after[a] == before[a]);
                    }
                }
                assert forall|a: int| 0 <= a < after.len() && i < l.len() implies (
                #[trigger] after[a]).key(by) <= l[i as int].key(by) by {
                    if a < before.len() {
                        assert(after[a] == before[a]);
                    }
                }
                assert forall|a: int| 0 <= a < after.len() && j + 1 < r.len() implies (
                #[trigger] after[a]).key(by) <= r[j + 1].key(by) by {
                    if a < before.len() {
                        assert(after[a] == before[a]);
                    }
                }
            }
            j = j + 1;
        }
    }
    proof {
        assert(l.take(i as int) =~= l);
        assert(r.take(j as int) =~= r);
    }
    merged
}

/// The entries of `entries` from `from` to before `to`, sorted stably by
/// their keys.
fn sorted_range(entries: &Vec<LocationEntry>, from: usize, to: usize, by: IndexKey) -> (run: Vec<
    LocationEntry,
>)
    requires
        from <= to <= entries@.len(),
    ensures
        is_stable_sort_of(
            entry_views(run@),
            entry_views(entries@).subrange(from as int, to as int),
            by,
        ),
    decreases to - from,
{
    let ghost all = entry_views(entries@);
    let ghost range = all.subrange(from as int, to as int);
    if to - from <= 1 {
        let mut run: Vec<LocationEntry> = Vec::new();
        if to - from == 1 {
            run.push(entries[from].clone());
        }
        proof {
            assert(entry_views(run@) =~= range);
        }
        run
    } else {
        let mid = from + (to - from) / 2;
        let left = sorted_range(entries, from, mid, by);
        let right = sorted_range(entries, mid, to, by);
        let run = merge(&left, &right, by);
        proof {
            let first = all.subrange(from as int, mid as int);
            let second = all.subrange(mid as int, to as int);
            assert(range =~= first + second);
            assert forall|k: int| #[trigger]
                entry_views(run@).filter(has_key(by, k)) == range.filter(has_key(by, k)) by {
                Seq::filter_distributes_over_add(first, second, has_key(by, k));
                assert(with_key(entry_views(run@), by, k) == with_key(entry_views(left@), by, k)
                    + with_key(entry_views(right@), by, k));
                assert(entry_views(left@).filter(has_key(by, k)) == first.filter(has_key(by, k)));
                assert(entry_views(right@).filter(has_key(by, k)) == second.filter(has_key(by, k)));
            }
        }
        run
    }
}

/// Sorts the entries by their keys. The sort is stable: entries of one key
/// keep the order they had.
pub fn sort_by_key(entries: &mut Vec<LocationEntry>, by: IndexKey)
    ensures
        is_stable_sort_of(entry_views(final(entries)@), entry_views(old(entries)@), by),
{
    let ghost before = entry_views(entries@);
    let run = sorted_range(entries, 0, entries.len(), by);
    proof {
        assert(before.subrange(0, before.len() as int) =~= before);
    }
    *entries = run;
}

/// Drops each entry whose key is that of the entry before it. The entries are
/// in the order of their keys.
fn dedup_by_key(entries: &mut Vec<LocationEntry>, by: IndexKey) -> (origin: Ghost<Seq<int>>)
    requires
        sorted(entry_views(old(entries)@), by),
    ensures
        strictly_increasing(entry_views(final(entries)@), by),
        is_dedup_of(entry_views(final(entries)@), entry_views(old(entries)@), by, origin@),
{
    let ghost all = entry_views(entries@);
    let ghost mut origin: Seq<int> = Seq::empty();
    let ghost mut slot: Seq<int> = Seq::empty();
    let mut kept: Vec<LocationEntry> = Vec::new();
    let mut i: usize = 0;
    while i < entries.len()
        invariant
            i <= entries.len(),
            all == entry_views(entries@),
            all.len() == entries.len(),
            sorted(all, by),
            strictly_increasing(entry_views(kept@), by),
            origin.len() == kept.len(),
            slot.len() == i,
            kept.len() > 0 ==> i > 0 && kept@[kept.len() - 1]@.key(by) == all[i - 1].key(by),
            i > 0 ==> kept.len() > 0,
            forall|a: int|
                0 <= a < kept.len() ==> {
                    &&& 0 <= #[trigger] origin[a] < i
                    &&& kept@[a]@ == all[origin[a]]
                    &&& forall|j: int|
                        0 <= j < origin[a] ==> #[trigger] all[j].key(by) != kept@[a]@.key(by)
                },
            forall|j: int|
                0 <= j < i ==> 0 <= #[trigger] slot[j] < kept.len() && kept@[slot[j]]@.key(by)
                    == all[j].key(by),
        decreases entries.len() - i,
    {
        let entry = &entries[i];
        assert(entry@ == all[i as int]);
        let fresh = kept.len() == 0 || kept[kept.len() - 1].key(by) != entry.key(by);
        if fresh {
            let ghost before = entry_views(kept@);
            kept.push(entry.clone());
            proof {
                let after = entry_views(kept@);
                assert(after =~= before.push(all[i as int]));
                assert forall|j: int| 0 <= j < i implies #[trigger] all[j].key(by) != all[i as int].key(
                    by,
                ) by {
                    assert(all[j].key(by) <= all[i - 1].key(by));
                    assert(all[i - 1].key(by) <= all[i as int].key(by));
                }
                assert forall|a: int, b: int| 0 <= a < b < after.len() implies after[a].key(by)
                    < after[b].key(by) by {
                    if b == after.len() - 1 {
                        assert(after[a] == all[origin[a]]);
                        assert(all[origin[a]].key(by) <= all[i as int].key(by));
                    } else {
                        assert(after[a] == before[a] && after[b] == before[b]);
                    }
                }
                origin = origin.push(i as int);
                slot = slot.push(kept.len() - 1);
            }
        } else {
            proof {
                slot = slot.push(kept.len() - 1);
            }
        }
        i = i + 1;
    }
    *entries = kept;
    proof {
        let done = entry_views(entries@);
        assert forall|j: int| 0 <= j < all.len() implies holds_key(
            done,
            by,
            (#[trigger] all[j]).key(by),
        ) by {
            assert(done[slot[j]].key(by) == all[j].key(by));
        }
    }
    Ghost(origin)
}

/// Makes `entries` the index of what it held, by the key `by`: sorts the
/// entries by that key, stably, and keeps of each key the first.
pub fn finish_index(entries: &mut Vec<LocationEntry>, by: IndexKey)
    ensures
        is_index_of(entry_views(final(entries)@), entry_views(old(entries)@), by),
{
    let ghost facts = entry_views(entries@);
    sort_by_key(entries, by);
    let ghost ordered = entry_views(entries@);
    let origin = dedup_by_key(entries, by);
    proof {
        lemma_sort_dedup_is_index(facts, ordered, entry_views(entries@), by, origin@);
    }
}

/// The place of the key `k` in `entries`: the number of entries whose key is
/// below `k`. The entries are in the order of their keys.
pub fn lower_bound(entries: &Vec<LocationEntry>, by: IndexKey, k: u64) -> (at: usize)
    requires
        sorted(entry_views(entries@), by),
    ensures
        at <= entries.len(),
        forall|i: int| 0 <= i < at ==> (#[trigger] entries@[i])@.key(by) < k,
        forall|i: int| at <= i < entries.len() ==> (#[trigger] entries@[i])@.key(by) >= k,
{
    let ghost all = entry_views(entries@);
    let mut low: usize = 0;
    let mut high: usize = entries.len();
    while low < high
        invariant
            low <= high <= entries.len(),
            all == entry_views(entries@),
            sorted(all, by),
            forall|i: int| 0 <= i < low ==> (#[trigger] entries@[i])@.key(by) < k,
            forall|i: int| high <= i < entries.len() ==> (#[trigger] entries@[i])@.key(by) >= k,
        decreases high - low,
    {
        let mid = low + (high - low) / 2;
        if entries[mid].key(by) < k {
            proof {
                assert forall|i: int| 0 <= i < mid + 1 implies (#[trigger] entries@[i])@.key(by)
                    < k by {
                    assert(all[i] == entries@[i]@);
                    assert(all[mid as int] == entries@[mid as int]@);
                }
            }
            low = mid + 1;
        } else {
            proof {
                assert forall|i: int| mid <= i < entries.len() implies (#[trigger] entries@[i])@.key(
                    by,
                ) >= k by {
                    assert(all[i] == entries@[i]@);
                    assert(all[mid as int] == entries@[mid as int]@);
                }
            }
            high = mid;
        }
    }
    low
}

} // verus!
