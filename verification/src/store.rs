//! The index store: the known applications, the reconciliation of a fresh
//! scan with them, and the usage counters.

use crate::record::{
    fresh_record, refreshed_record, AppRecord, AppRecordView, ScannedEntry, ScannedEntryView,
};
use vstd::prelude::*;

verus! {

/// Mathematical model of an [`IndexStore`].
pub struct IndexStoreView {
    /// The records, in the order of the scan that last produced them.
    pub records: Seq<AppRecordView>,
    /// The directories that a scan walks.
    pub search_paths: Seq<Seq<char>>,
    /// The identifier that the next new record gets.
    pub next_id: u64,
}

/// Why a store operation did nothing.
#[derive(Debug, PartialEq, Eq, Clone, Copy, Structural)]
pub enum StoreError {
    /// No record has the identifier that was given.
    UnknownId,
    /// The scan holds more new applications than there are identifiers left.
    IdsExhausted,
}

/// Some record has the identifier `id`.
pub open spec fn has_id(records: Seq<AppRecordView>, id: u64) -> bool {
    exists|i: int| 0 <= i < records.len() && (#[trigger] records[i]).id == id
}

/// Some record came from the shortcut file at `path`.
pub open spec fn has_path(records: Seq<AppRecordView>, path: Seq<char>) -> bool {
    exists|i: int| 0 <= i < records.len() && (#[trigger] records[i]).source_path == path
}

/// An index of a record with the identifier `id`; the only one where
/// identifiers are distinct.
pub open spec fn position_of_id(records: Seq<AppRecordView>, id: u64) -> int {
    choose|i: int| 0 <= i < records.len() && (#[trigger] records[i]).id == id
}

/// An index of a record that came from `path`; the only one where paths are
/// distinct.
pub open spec fn position_of_path(records: Seq<AppRecordView>, path: Seq<char>) -> int {
    choose|i: int| 0 <= i < records.len() && (#[trigger] records[i]).source_path == path
}

/// No two records share an identifier.
pub open spec fn distinct_ids(records: Seq<AppRecordView>) -> bool {
    forall|i: int, j: int|
        0 <= i < records.len() && 0 <= j < records.len() && i != j ==> (#[trigger] records[i]).id
            != (#[trigger] records[j]).id
}

/// No two records came from the same shortcut file.
pub open spec fn distinct_paths(records: Seq<AppRecordView>) -> bool {
    forall|i: int, j: int|
        0 <= i < records.len() && 0 <= j < records.len() && i != j
            ==> (#[trigger] records[i]).source_path != (#[trigger] records[j]).source_path
}

/// Every identifier in use is smaller than `bound`.
pub open spec fn ids_below(records: Seq<AppRecordView>, bound: int) -> bool {
    forall|i: int| 0 <= i < records.len() ==> (#[trigger] records[i]).id < bound
}

impl IndexStoreView {
    /// The invariant of a store: identifiers are unique, each shortcut file
    /// has at most one record, and no identifier in use can be handed out
    /// again.
    pub open spec fn valid(self) -> bool {
        &&& distinct_ids(self.records)
        &&& distinct_paths(self.records)
        &&& ids_below(self.records, self.next_id as int)
    }
}

/// The records built so far by a merge, and the next free identifier.
pub struct MergeView {
    pub records: Seq<AppRecordView>,
    pub next_id: int,
}

/// One step of a merge. An entry whose path was already met in this scan
/// is passed over. An entry whose path a record of `known` has continues
/// that record: identifier and usage history stay, name and execution data
/// are the entry's. Any other entry becomes a new record with the next
/// free identifier.
pub open spec fn merge_step(
    known: Seq<AppRecordView>,
    acc: MergeView,
    entry: ScannedEntryView,
) -> MergeView {
    if has_path(acc.records, entry.source_path) {
        acc
    } else if has_path(known, entry.source_path) {
        MergeView {
            records: acc.records.push(
                refreshed_record(known[position_of_path(known, entry.source_path)], entry),
            ),
            next_id: acc.next_id,
        }
    } else {
        MergeView {
            records: acc.records.push(fresh_record(acc.next_id as u64, entry)),
            next_id: acc.next_id + 1,
        }
    }
}

/// The merge of a whole scan, entry by entry in the order of the scan.
/// Records of `known` whose path the scan does not hold are dropped.
pub open spec fn merge_fold(
    known: Seq<AppRecordView>,
    next_id: int,
    scan: Seq<ScannedEntryView>,
) -> MergeView
    decreases scan.len(),
{
    if scan.len() == 0 {
        MergeView { records: Seq::empty(), next_id }
    } else {
        merge_step(known, merge_fold(known, next_id, scan.drop_last()), scan.last())
    }
}

/// The store after a scan was merged into it, or `None` where the scan
/// asks for more new identifiers than are left.
pub open spec fn merged(store: IndexStoreView, scan: Seq<ScannedEntryView>) -> Option<
    IndexStoreView,
> {
    let m = merge_fold(store.records, store.next_id as int, scan);
    if m.next_id <= u64::MAX {
        Some(
            IndexStoreView {
                records: m.records,
                search_paths: store.search_paths,
                next_id: m.next_id as u64,
            },
        )
    } else {
        None
    }
}

/// The record `r` continues a record of `known`: same identifier, same
/// path, same usage history.
pub open spec fn carried_over(known: Seq<AppRecordView>, r: AppRecordView) -> bool {
    exists|j: int|
        0 <= j < known.len() && (#[trigger] known[j]).id == r.id && known[j].source_path
            == r.source_path && known[j].usage_count == r.usage_count && known[j].last_used
            == r.last_used
}

/// What holds of every intermediate result of a merge into a valid store.
pub open spec fn merge_inv(known: Seq<AppRecordView>, next_id: int, m: MergeView) -> bool {
    &&& next_id <= m.next_id
    &&& distinct_ids(m.records)
    &&& distinct_paths(m.records)
    &&& ids_below(m.records, m.next_id)
    &&& forall|i: int|
        0 <= i < m.records.len() && (#[trigger] m.records[i]).id < next_id ==> carried_over(
            known,
            m.records[i],
        )
    &&& forall|i: int|
        0 <= i < m.records.len() && (#[trigger] m.records[i]).id >= next_id
            ==> m.records[i].usage_count == 0 && m.records[i].last_used is None
}

/// One step of a merge keeps what holds of every intermediate result.
proof fn lemma_merge_step_inv(
    known: Seq<AppRecordView>,
    next_id: int,
    acc: MergeView,
    entry: ScannedEntryView,
)
    requires
        distinct_ids(known),
        distinct_paths(known),
        ids_below(known, next_id),
        0 <= next_id,
        merge_inv(known, next_id, acc),
        acc.next_id < u64::MAX || has_path(acc.records, entry.source_path) || has_path(
            known,
            entry.source_path,
        ),
    ensures
        merge_inv(known, next_id, merge_step(known, acc, entry)),
{
    let out = merge_step(known, acc, entry);
    if has_path(acc.records, entry.source_path) {
    } else if has_path(known, entry.source_path) {
        let p = position_of_path(known, entry.source_path);
        let r = refreshed_record(known[p], entry);
        let n = acc.records.len() as int;
        assert(out.records[n] == r);
        assert(carried_over(known, r)) by {
            assert(known[p].id == r.id && known[p].source_path == r.source_path
                && known[p].usage_count == r.usage_count && known[p].last_used == r.last_used);
        }
        assert forall|i: int| 0 <= i < n implies (#[trigger] out.records[i]).id != r.id by {
            assert(out.records[i] == acc.records[i]);
            if acc.records[i].id == r.id {
                assert(carried_over(known, acc.records[i]));
                let j = choose|j: int|
                    0 <= j < known.len() && (#[trigger] known[j]).id == acc.records[i].id
                        && known[j].source_path == acc.records[i].source_path
                        && known[j].usage_count == acc.records[i].usage_count
                        && known[j].last_used == acc.records[i].last_used;
                assert(j == p);
                assert(acc.records[i].source_path == entry.source_path);
            }
        }
        assert forall|i: int| 0 <= i < n implies (#[trigger] out.records[i]).source_path
            != r.source_path by {
            assert(out.records[i] == acc.records[i]);
        }
        assert(distinct_ids(out.records));
        assert(distinct_paths(out.records));
        assert(ids_below(out.records, out.next_id));
    } else {
        let r = fresh_record(acc.next_id as u64, entry);
        let n = acc.records.len() as int;
        assert(out.records[n] == r);
        assert(r.id == acc.next_id);
        assert forall|i: int| 0 <= i < n implies (#[trigger] out.records[i]).source_path
            != r.source_path by {
            assert(out.records[i] == acc.records[i]);
        }
        assert forall|i: int| 0 <= i < n implies (#[trigger] out.records[i]).id < r.id by {
            assert(out.records[i] == acc.records[i]);
        }
        assert(distinct_ids(out.records));
        assert(distinct_paths(out.records));
        assert(ids_below(out.records, out.next_id));
    }
}

/// A merge never lowers the next free identifier, and a longer scan never
/// needs fewer identifiers than a part of it.
pub proof fn lemma_merge_fold_next_id(
    known: Seq<AppRecordView>,
    next_id: int,
    scan: Seq<ScannedEntryView>,
    k: int,
)
    requires
        0 <= k <= scan.len(),
    ensures
        next_id <= merge_fold(known, next_id, scan.take(k)).next_id <= merge_fold(
            known,
            next_id,
            scan,
        ).next_id,
    decreases scan.len(),
{
    if scan.len() == 0 {
        assert(scan.take(k) =~= scan);
    } else if k == scan.len() {
        assert(scan.take(k) =~= scan);
        lemma_merge_fold_next_id(known, next_id, scan.drop_last(), k - 1);
    } else {
        assert(scan.drop_last().take(k) =~= scan.take(k));
        lemma_merge_fold_next_id(known, next_id, scan.drop_last(), k);
    }
}

/// Merging into a valid store keeps it valid, as long as identifiers are
/// left.
pub proof fn lemma_merge_fold_inv(
    known: Seq<AppRecordView>,
    next_id: int,
    scan: Seq<ScannedEntryView>,
)
    requires
        distinct_ids(known),
        distinct_paths(known),
        ids_below(known, next_id),
        0 <= next_id,
        merge_fold(known, next_id, scan).next_id <= u64::MAX,
    ensures
        merge_inv(known, next_id, merge_fold(known, next_id, scan)),
    decreases scan.len(),
{
    if scan.len() > 0 {
        let before = merge_fold(known, next_id, scan.drop_last());
        assert(before.next_id <= merge_fold(known, next_id, scan).next_id);
        lemma_merge_fold_inv(known, next_id, scan.drop_last());
        lemma_merge_step_inv(known, next_id, before, scan.last());
    }
}

/// A merge that succeeds leaves a valid store.
pub proof fn lemma_merged_valid(store: IndexStoreView, scan: Seq<ScannedEntryView>)
    requires
        store.valid(),
        merged(store, scan) is Some,
    ensures
        merged(store, scan)->0.valid(),
{
    lemma_merge_fold_inv(store.records, store.next_id as int, scan);
}


/// A record after one more launch at time `now`. The counter stops at the
/// largest value that it can hold.
pub open spec fn used_record(record: AppRecordView, now: u64) -> AppRecordView {
    AppRecordView {
        usage_count: if record.usage_count < u64::MAX {
            (record.usage_count + 1) as u64
        } else {
            record.usage_count
        },
        last_used: Some(now),
        ..record
    }
}

/// The store after a launch of the application `id` was recorded at time
/// `now`: unchanged where no record has that identifier.
pub open spec fn after_usage(store: IndexStoreView, id: u64, now: u64) -> IndexStoreView {
    if has_id(store.records, id) {
        let i = position_of_id(store.records, id);
        IndexStoreView {
            records: store.records.update(i, used_record(store.records[i], now)),
            ..store
        }
    } else {
        store
    }
}

/// The store of known applications.
///
/// The fields are private: every value of the type meets
/// [`IndexStoreView::valid`].
#[derive(Debug, PartialEq, Eq)]
pub struct IndexStore {
    records: Vec<AppRecord>,
    search_paths: Vec<String>,
    next_id: u64,
}

impl View for IndexStore {
    type V = IndexStoreView;

    closed spec fn view(&self) -> IndexStoreView {
        IndexStoreView {
            records: self.records.deep_view(),
            search_paths: self.search_paths.deep_view(),
            next_id: self.next_id,
        }
    }
}

/// Looks for the record that came from `path`.
pub fn position_by_path(records: &Vec<AppRecord>, path: &String) -> (res: Option<usize>)
    ensures
        match res {
            Some(i) => {
                &&& i < records.len()
                &&& records.deep_view()[i as int].source_path == path@
                &&& forall|j: int| 0 <= j < i ==> (#[trigger] records.deep_view()[j]).source_path != path@
            },
            None => !has_path(records.deep_view(), path@),
        },
{
    let mut i: usize = 0;
    while i < records.len()
        invariant
            i <= records.len(),
            forall|j: int| 0 <= j < i ==> (#[trigger] records.deep_view()[j]).source_path != path@,
        decreases records.len() - i,
    {
        if records[i].source_path == *path {
            return Some(i);
        }
        i += 1;
    }
    None
}

/// Looks for the record with the identifier `id`.
pub fn position_by_id(records: &Vec<AppRecord>, id: u64) -> (res: Option<usize>)
    ensures
        match res {
            Some(i) => {
                &&& i < records.len()
                &&& records.deep_view()[i as int].id == id
                &&& forall|j: int| 0 <= j < i ==> (#[trigger] records.deep_view()[j]).id != id
            },
            None => !has_id(records.deep_view(), id),
        },
{
    let mut i: usize = 0;
    while i < records.len()
        invariant
            i <= records.len(),
            forall|j: int| 0 <= j < i ==> (#[trigger] records.deep_view()[j]).id != id,
        decreases records.len() - i,
    {
        if records[i].id == id {
            return Some(i);
        }
        i += 1;
    }
    None
}

/// Tests the invariant of a store on the parts of one.
pub fn parts_are_valid(records: &Vec<AppRecord>, next_id: u64) -> (res: bool)
    ensures
        res == (distinct_ids(records.deep_view()) && distinct_paths(records.deep_view())
            && ids_below(records.deep_view(), next_id as int)),
{
    let ghost rv = records.deep_view();
    let mut i: usize = 0;
    while i < records.len()
        invariant
            i <= records.len(),
            rv == records.deep_view(),
            forall|a: int| 0 <= a < i ==> (#[trigger] rv[a]).id < next_id,
            forall|a: int, b: int|
                0 <= a < i && 0 <= b < i && a != b ==> (#[trigger] rv[a]).id != (#[trigger] rv[b]).id,
            forall|a: int, b: int|
                0 <= a < i && 0 <= b < i && a != b ==> (#[trigger] rv[a]).source_path != (
                #[trigger] rv[b]).source_path,
        decreases records.len() - i,
    {
        if records[i].id >= next_id {
            assert(!(rv[i as int].id < next_id));
            return false;
        }
        let mut j: usize = 0;
        while j < i
            invariant
                j <= i < records.len(),
                rv == records.deep_view(),
                forall|a: int|
                    0 <= a < j ==> (#[trigger] rv[a]).id != rv[i as int].id && rv[a].source_path
                        != rv[i as int].source_path,
            decreases i - j,
        {
            if records[j].id == records[i].id {
                assert(rv[j as int].id == rv[i as int].id);
                return false;
            }
            if records[j].source_path == records[i].source_path {
                assert(rv[j as int].source_path == rv[i as int].source_path);
                return false;
            }
            j += 1;
        }
        i += 1;
    }
    true
}

/// A copy of a list of records.
pub fn clone_records(records: &Vec<AppRecord>) -> (res: Vec<AppRecord>)
    ensures
        res.deep_view() == records.deep_view(),
{
    let mut out: Vec<AppRecord> = Vec::new();
    let mut i: usize = 0;
    while i < records.len()
        invariant
            i <= records.len(),
            out.len() == i,
            forall|j: int| 0 <= j < i ==> out[j]@ == records[j]@,
        decreases records.len() - i,
    {
        out.push(records[i].clone());
        i += 1;
    }
    assert(out.deep_view() =~= records.deep_view());
    out
}

/// A copy of a list of texts.
pub fn clone_texts(texts: &Vec<String>) -> (res: Vec<String>)
    ensures
        res.deep_view() == texts.deep_view(),
{
    let mut out: Vec<String> = Vec::new();
    let mut i: usize = 0;
    while i < texts.len()
        invariant
            i <= texts.len(),
            out.len() == i,
            forall|j: int| 0 <= j < i ==> out[j]@ == texts[j]@,
        decreases texts.len() - i,
    {
        out.push(texts[i].clone());
        i += 1;
    }
    assert(out.deep_view() =~= texts.deep_view());
    out
}

impl Clone for IndexStore {
    fn clone(&self) -> (res: Self)
        ensures
            res@ == self@,
    {
        proof {
            use_type_invariant(self);
        }
        IndexStore {
            records: clone_records(&self.records),
            search_paths: clone_texts(&self.search_paths),
            next_id: self.next_id,
        }
    }
}

impl IndexStore {
    #[verifier::type_invariant]
    closed spec fn inv(&self) -> bool {
        self@.valid()
    }

    /// An empty store over the given search directories.
    pub fn new(search_paths: Vec<String>) -> (res: Self)
        ensures
            res@ == (IndexStoreView {
                records: Seq::empty(),
                search_paths: search_paths.deep_view(),
                next_id: 0,
            }),
            res@.valid(),
    {
        let res = IndexStore { records: Vec::new(), search_paths, next_id: 0 };
        assert(res.records.deep_view() =~= Seq::empty());
        res
    }

    /// Reconciles the store with a fresh scan.
    ///
    /// Each shortcut file of the scan has one record afterwards, in the
    /// order of the scan; a file that the scan lists twice counts once, as
    /// first listed. A record whose file was scanned again keeps its
    /// identifier and usage history and takes name and execution data from
    /// the scan. A file not known before gets a new identifier and no
    /// usage. A record whose file the scan does not hold is dropped. Where
    /// the identifiers do not suffice the store stays as it was.
    pub fn merge_scan(&mut self, entries: &[ScannedEntry]) -> (res: Result<(), StoreError>)
        ensures
            match merged(old(self)@, entries.deep_view()) {
                Some(v) => res is Ok && final(self)@ == v,
                None => res == Err::<(), StoreError>(StoreError::IdsExhausted) && final(self)@
                    == old(self)@,
            },
            final(self)@.valid(),
    {
        proof {
            use_type_invariant(&*self);
        }
        let ghost known = self@.records;
        let ghost first_id = self@.next_id as int;
        let ghost scan = entries.deep_view();
        let mut acc: Vec<AppRecord> = Vec::new();
        let mut next: u64 = self.next_id;
        let mut k: usize = 0;
        assert(scan.take(0) =~= Seq::empty());
        assert(acc.deep_view() =~= Seq::empty());
        while k < entries.len()
            invariant
                k <= entries.len(),
                scan == entries.deep_view(),
                self@ == old(self)@,
                self@.valid(),
                known == self.records.deep_view(),
                first_id == self.next_id,
                acc.deep_view() == merge_fold(known, first_id, scan.take(k as int)).records,
                next == merge_fold(known, first_id, scan.take(k as int)).next_id,
            decreases entries.len() - k,
        {
            let entry = &entries[k];
            let ghost before = merge_fold(known, first_id, scan.take(k as int));
            let ghost acc_before = acc.deep_view();
            proof {
                assert(scan.take(k + 1).drop_last() =~= scan.take(k as int));
                assert(scan.take(k + 1).last() == entry@);
                assert(merge_fold(known, first_id, scan.take(k + 1)) == merge_step(
                    known,
                    before,
                    entry@,
                ));
            }
            if position_by_path(&acc, &entry.source_path).is_none() {
                match position_by_path(&self.records, &entry.source_path) {
                    Some(i) => {
                        proof {
                            assert(known[i as int].source_path == entry@.source_path);
                            assert(has_path(known, entry@.source_path));
                            assert(position_of_path(known, entry@.source_path) == i);
                        }
                        let r = self.records[i].refreshed(entry);
                        acc.push(r);
                        assert(acc.deep_view() =~= acc_before.push(r@));
                    },
                    None => {
                        if next == u64::MAX {
                            proof {
                                lemma_merge_fold_next_id(known, first_id, scan, k + 1);
                            }
                            return Err(StoreError::IdsExhausted);
                        }
                        let r = AppRecord::fresh(next, entry);
                        acc.push(r);
                        next = next + 1;
                        assert(acc.deep_view() =~= acc_before.push(r@));
                    },
                }
            }
            k += 1;
        }
        proof {
            assert(scan.take(k as int) =~= scan);
            lemma_merge_fold_inv(known, first_id, scan);
        }
        self.next_id = next;
        self.records = acc;
        Ok(())
    }

    /// A store made of the given parts, or `None` where they break the
    /// invariant of a store.
    pub fn from_parts(records: Vec<AppRecord>, search_paths: Vec<String>, next_id: u64) -> (res:
        Option<Self>)
        ensures
            res is Some <==> (IndexStoreView {
                records: records.deep_view(),
                search_paths: search_paths.deep_view(),
                next_id,
            }).valid(),
            res matches Some(store) ==> store@ == (IndexStoreView {
                records: records.deep_view(),
                search_paths: search_paths.deep_view(),
                next_id,
            }),
    {
        if parts_are_valid(&records, next_id) {
            Some(IndexStore { records, search_paths, next_id })
        } else {
            None
        }
    }

    /// Records one launch of the application `id` at time `now`: its
    /// counter goes up by one and its last use becomes `now`. An unknown
    /// identifier changes nothing and is reported.
    pub fn record_usage(&mut self, id: u64, now: u64) -> (res: Result<(), StoreError>)
        ensures
            final(self)@ == after_usage(old(self)@, id, now),
            has_id(old(self)@.records, id) ==> res is Ok,
            !has_id(old(self)@.records, id) ==> res == Err::<(), StoreError>(StoreError::UnknownId),
            final(self)@.valid(),
    {
        proof {
            use_type_invariant(&*self);
        }
        match position_by_id(&self.records, id) {
            Some(i) => {
                let ghost before = self.records.deep_view();
                assert(position_of_id(before, id) == i);
                let mut records: Vec<AppRecord> = Vec::new();
                std::mem::swap(&mut self.records, &mut records);
                let count = records[i].usage_count;
                if count < u64::MAX {
                    records[i].usage_count = count + 1;
                }
                records[i].last_used = Some(now);
                assert(records.deep_view() =~= before.update(
                    i as int,
                    used_record(before[i as int], now),
                ));
                self.records = records;
                Ok(())
            },
            None => Err(StoreError::UnknownId),
        }
    }

    /// The record with the identifier `id`, if there is one.
    pub fn get(&self, id: u64) -> (res: Option<&AppRecord>)
        ensures
            res is Some <==> has_id(self@.records, id),
            res matches Some(r) ==> r@ == self@.records[position_of_id(self@.records, id)],
    {
        proof {
            use_type_invariant(self);
        }
        match position_by_id(&self.records, id) {
            Some(i) => {
                assert(position_of_id(self.records.deep_view(), id) == i);
                Some(&self.records[i])
            },
            None => None,
        }
    }

    /// The number of records.
    pub fn len(&self) -> (res: usize)
        ensures
            res == self@.records.len(),
    {
        self.records.len()
    }

    /// The records, in store order.
    pub fn records(&self) -> (res: &Vec<AppRecord>)
        ensures
            res.deep_view() == self@.records,
    {
        &self.records
    }

    /// The directories that a scan walks.
    pub fn search_paths(&self) -> (res: &Vec<String>)
        ensures
            res.deep_view() == self@.search_paths,
    {
        &self.search_paths
    }

    /// The identifier that the next new record gets.
    pub fn next_id(&self) -> (res: u64)
        ensures
            res == self@.next_id,
    {
        self.next_id
    }

    /// States the invariant of the type for a caller that holds a store.
    pub fn validity(&self)
        ensures
            self@.valid(),
    {
        proof {
            use_type_invariant(self);
        }
    }
}

} // verus!
