//! Laws of the index store: what a merge keeps, what it drops, that a
//! second merge of the same scan changes nothing, and how a recorded
//! launch moves the counters.

use crate::record::{refreshed_record, AppRecordView, ScannedEntryView};
use crate::store::{
    after_usage, carried_over, distinct_ids, distinct_paths, has_id, has_path, ids_below, lemma_merge_fold_inv, lemma_merge_fold_next_id,
    merge_fold, merge_inv, merge_step, merged, position_of_id, position_of_path, used_record,
    IndexStoreView, MergeView,
};
use vstd::prelude::*;

verus! {

/// Some entry of the scan is the shortcut file at `path`.
pub open spec fn scan_has_path(scan: Seq<ScannedEntryView>, path: Seq<char>) -> bool {
    exists|k: int| 0 <= k < scan.len() && (#[trigger] scan[k]).source_path == path
}

/// What a part of a scan has built stays, in place, when the rest of the
/// scan is merged.
pub proof fn lemma_merge_fold_prefix(
    known: Seq<AppRecordView>,
    next_id: int,
    scan: Seq<ScannedEntryView>,
    k: int,
)
    requires
        0 <= k <= scan.len(),
    ensures
        ({
            let part = merge_fold(known, next_id, scan.take(k)).records;
            let whole = merge_fold(known, next_id, scan).records;
            part.len() <= whole.len() && part == whole.take(part.len() as int)
        }),
    decreases scan.len(),
{
    let part = merge_fold(known, next_id, scan.take(k)).records;
    let whole = merge_fold(known, next_id, scan).records;
    if k == scan.len() {
        assert(scan.take(k) =~= scan);
        assert(whole.take(whole.len() as int) =~= whole);
    } else {
        assert(scan.drop_last().take(k) =~= scan.take(k));
        lemma_merge_fold_prefix(known, next_id, scan.drop_last(), k);
        let prev = merge_fold(known, next_id, scan.drop_last()).records;
        assert(part == prev.take(part.len() as int));
        assert(part =~= whole.take(part.len() as int));
    }
}

/// After a merge the store holds a record for a path exactly when the
/// scan holds that path: every scanned file is known, and a record whose
/// file is gone is dropped.
pub proof fn lemma_merge_fold_paths(
    known: Seq<AppRecordView>,
    next_id: int,
    scan: Seq<ScannedEntryView>,
    path: Seq<char>,
)
    ensures
        has_path(merge_fold(known, next_id, scan).records, path) == scan_has_path(scan, path),
    decreases scan.len(),
{
    let out = merge_fold(known, next_id, scan);
    if scan.len() == 0 {
        assert(!has_path(out.records, path));
        assert(!scan_has_path(scan, path));
    } else {
        let rest = scan.drop_last();
        let entry = scan.last();
        let acc = merge_fold(known, next_id, rest);
        lemma_merge_fold_paths(known, next_id, rest, path);
        lemma_merge_fold_paths(known, next_id, rest, entry.source_path);
        assert(out == merge_step(known, acc, entry));
        if scan_has_path(scan, path) {
            let k = choose|k: int| 0 <= k < scan.len() && (#[trigger] scan[k]).source_path == path;
            if k < rest.len() {
                assert(rest[k].source_path == path);
                assert(has_path(acc.records, path));
                let i = choose|i: int|
                    0 <= i < acc.records.len() && (#[trigger] acc.records[i]).source_path == path;
                assert(out.records[i].source_path == path);
            } else {
                assert(entry.source_path == path);
                if !has_path(acc.records, path) {
                    assert(out.records[acc.records.len() as int].source_path == path);
                }
            }
            assert(has_path(out.records, path));
        }
        if has_path(out.records, path) {
            let i = choose|i: int|
                0 <= i < out.records.len() && (#[trigger] out.records[i]).source_path == path;
            if i < acc.records.len() {
                assert(acc.records[i].source_path == path);
                assert(scan_has_path(rest, path));
                let k = choose|k: int| 0 <= k < rest.len() && (#[trigger] rest[k]).source_path == path;
                assert(scan[k].source_path == path);
            } else {
                assert(scan[scan.len() - 1].source_path == path);
            }
            assert(scan_has_path(scan, path));
        }
    }
}

/// A rescan keeps what the user has trained. Where the store holds the
/// record `store.records[i]` and `scan[k]` is the first entry of the scan
/// for the same shortcut file, the merged store holds that record with its
/// identifier, its usage count and its last use, and with the name and
/// execution data of the entry.
pub proof fn lemma_merge_preserves_usage(
    store: IndexStoreView,
    scan: Seq<ScannedEntryView>,
    i: int,
    k: int,
)
    requires
        store.valid(),
        merged(store, scan) is Some,
        0 <= i < store.records.len(),
        0 <= k < scan.len(),
        scan[k].source_path == store.records[i].source_path,
        forall|e: int| 0 <= e < k ==> (#[trigger] scan[e]).source_path != scan[k].source_path,
    ensures
        merged(store, scan)->0.records.contains(refreshed_record(store.records[i], scan[k])),
        refreshed_record(store.records[i], scan[k]).id == store.records[i].id,
        refreshed_record(store.records[i], scan[k]).usage_count == store.records[i].usage_count,
        refreshed_record(store.records[i], scan[k]).last_used == store.records[i].last_used,
        refreshed_record(store.records[i], scan[k]).name == scan[k].name,
{
    let known = store.records;
    let first = store.next_id as int;
    let path = scan[k].source_path;
    let acc = merge_fold(known, first, scan.take(k));
    let grown = merge_fold(known, first, scan.take(k + 1));
    let whole = merge_fold(known, first, scan).records;
    assert(scan.take(k + 1).drop_last() =~= scan.take(k));
    assert(scan.take(k + 1).last() == scan[k]);
    assert(grown == merge_step(known, acc, scan[k]));
    lemma_merge_fold_paths(known, first, scan.take(k), path);
    if scan_has_path(scan.take(k), path) {
        let e = choose|e: int|
            0 <= e < scan.take(k).len() && (#[trigger] scan.take(k)[e]).source_path == path;
        assert(scan[e].source_path == path);
    }
    assert(!has_path(acc.records, path));
    assert(known[i].source_path == path);
    assert(has_path(known, path));
    assert(position_of_path(known, path) == i);
    let r = refreshed_record(known[i], scan[k]);
    let m = acc.records.len() as int;
    assert(grown.records[m] == r);
    lemma_merge_fold_prefix(known, first, scan, k + 1);
    assert(whole[m] == whole.take(grown.records.len() as int)[m]);
    assert(whole[m] == r);
}

/// Merging a part of the scan into the store that the whole scan left
/// rebuilds what that part built the first time, and uses no identifier.
proof fn lemma_remerge_prefix(
    known: Seq<AppRecordView>,
    next_id: int,
    scan: Seq<ScannedEntryView>,
    k: int,
)
    requires
        distinct_ids(known),
        distinct_paths(known),
        ids_below(known, next_id),
        0 <= next_id,
        merge_fold(known, next_id, scan).next_id <= u64::MAX,
        0 <= k <= scan.len(),
    ensures
        ({
            let first = merge_fold(known, next_id, scan);
            merge_fold(first.records, first.next_id, scan.take(k)) == (MergeView {
                records: merge_fold(known, next_id, scan.take(k)).records,
                next_id: first.next_id,
            })
        }),
    decreases k,
{
    let first = merge_fold(known, next_id, scan);
    let settled = first.records;
    if k == 0 {
        assert(scan.take(0) =~= Seq::<ScannedEntryView>::empty());
    } else {
        lemma_remerge_prefix(known, next_id, scan, k - 1);
        let entry = scan[k - 1];
        assert(scan.take(k).drop_last() =~= scan.take(k - 1));
        assert(scan.take(k).last() == entry);
        let a_prev = merge_fold(known, next_id, scan.take(k - 1));
        let a_now = merge_fold(known, next_id, scan.take(k));
        let b_prev = merge_fold(settled, first.next_id, scan.take(k - 1));
        let b_now = merge_fold(settled, first.next_id, scan.take(k));
        assert(a_now == merge_step(known, a_prev, entry));
        assert(b_now == merge_step(settled, b_prev, entry));
        assert(b_prev.records == a_prev.records);
        if !has_path(a_prev.records, entry.source_path) {
            let m = a_prev.records.len() as int;
            let r = a_now.records[m];
            assert(r.source_path == entry.source_path && r.name == entry.name && r.launch
                == entry.launch);
            lemma_merge_fold_prefix(known, next_id, scan, k);
            assert(settled[m] == settled.take(a_now.records.len() as int)[m]);
            assert(settled[m] == r);
            lemma_merge_fold_inv(known, next_id, scan);
            assert(has_path(settled, entry.source_path));
            assert(position_of_path(settled, entry.source_path) == m);
            assert(refreshed_record(r, entry) == r);
            assert(b_now.records == a_now.records);
        }
    }
}

/// Merging the same scan a second time changes nothing: records,
/// identifiers, names and usage history stay as the first merge left
/// them, and no identifier is used up.
pub proof fn lemma_merge_idempotent(store: IndexStoreView, scan: Seq<ScannedEntryView>)
    requires
        store.valid(),
        merged(store, scan) is Some,
    ensures
        merged(merged(store, scan)->0, scan) == merged(store, scan),
{
    let first = merge_fold(store.records, store.next_id as int, scan);
    lemma_remerge_prefix(store.records, store.next_id as int, scan, scan.len() as int);
    assert(scan.take(scan.len() as int) =~= scan);
    lemma_merge_fold_next_id(store.records, store.next_id as int, scan, 0);
    let once = merged(store, scan)->0;
    assert(once.records == first.records);
    assert(once.next_id as int == first.next_id);
    assert(merge_fold(once.records, once.next_id as int, scan) == first);
}

/// A merge never touches the usage history. A record of the merged store
/// whose identifier was known before has the path, the usage count and the
/// last use that it had; any other record is new, with an identifier that
/// was never in use, no launches and no last use.
pub proof fn lemma_merge_keeps_history(store: IndexStoreView, scan: Seq<ScannedEntryView>, m: int)
    requires
        store.valid(),
        merged(store, scan) is Some,
        0 <= m < merged(store, scan)->0.records.len(),
    ensures
        ({
            let r = merged(store, scan)->0.records[m];
            if has_id(store.records, r.id) {
                let known = store.records[position_of_id(store.records, r.id)];
                r.source_path == known.source_path && r.usage_count == known.usage_count
                    && r.last_used == known.last_used
            } else {
                r.id >= store.next_id && r.usage_count == 0 && r.last_used is None
            }
        }),
{
    let known = store.records;
    let out = merge_fold(known, store.next_id as int, scan);
    lemma_merge_fold_inv(known, store.next_id as int, scan);
    let r = out.records[m];
    if r.id < store.next_id {
        assert(carried_over(known, r));
        let j = choose|j: int|
            0 <= j < known.len() && (#[trigger] known[j]).id == r.id && known[j].source_path
                == r.source_path && known[j].usage_count == r.usage_count && known[j].last_used
                == r.last_used;
        assert(has_id(known, r.id));
        assert(position_of_id(known, r.id) == j);
    } else {
        if has_id(known, r.id) {
            let j = choose|j: int| 0 <= j < known.len() && (#[trigger] known[j]).id == r.id;
            assert(known[j].id < store.next_id);
        }
    }
}

/// A recorded launch raises the counter of the record with that
/// identifier by exactly one, unless the counter already holds the largest
/// value that fits; it lowers no counter and leaves every other record as
/// it was. With an unknown identifier the store stays unchanged.
pub proof fn lemma_usage_counts(store: IndexStoreView, id: u64, now: u64)
    requires
        store.valid(),
    ensures
        after_usage(store, id, now).records.len() == store.records.len(),
        after_usage(store, id, now).next_id == store.next_id,
        after_usage(store, id, now).valid(),
        forall|i: int|
            0 <= i < store.records.len() ==> (#[trigger] after_usage(
                store,
                id,
                now,
            ).records[i]).usage_count >= store.records[i].usage_count,
        forall|i: int|
            0 <= i < store.records.len() && store.records[i].id == id ==> (#[trigger] after_usage(
                store,
                id,
                now,
            ).records[i]) == used_record(store.records[i], now),
        forall|i: int|
            0 <= i < store.records.len() && store.records[i].id == id && store.records[i].usage_count
                < u64::MAX ==> (#[trigger] after_usage(store, id, now).records[i]).usage_count
                == store.records[i].usage_count + 1,
        forall|i: int|
            0 <= i < store.records.len() && store.records[i].id != id ==> (#[trigger] after_usage(
                store,
                id,
                now,
            ).records[i]) == store.records[i],
        !has_id(store.records, id) ==> after_usage(store, id, now) == store,
{
    if has_id(store.records, id) {
        let p = position_of_id(store.records, id);
        let after = after_usage(store, id, now);
        assert forall|i: int| 0 <= i < store.records.len() && store.records[i].id == id implies i
            == p by {}
        assert forall|i: int| 0 <= i < after.records.len() implies (#[trigger] after.records[i]).id
            == store.records[i].id && after.records[i].source_path
            == store.records[i].source_path by {}
    }
}

} // verus!
