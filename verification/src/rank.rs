//! The ranker: which records answer a query, and in what order.
//!
//! A record answers a non-empty query when the fuzzy matcher scores its
//! name above [`MATCH_FLOOR`]. Its rank is that score plus a bounded weight
//! for its usage. An empty query is answered by every record, ranked by
//! usage alone. Equal ranks are ordered by usage, the more used record
//! first, then by name, then by identifier.

use crate::record::{AppRecord, AppRecordView};
use crate::store::{distinct_ids, IndexStore};
use vstd::prelude::*;
use vstd::utf8::encode_utf8;

verus! {

/// A score at or below this floor is no match.
pub const MATCH_FLOOR: i64 = 0;

/// The most that usage can add to a rank.
pub const USAGE_WEIGHT_CAP: u64 = 16;

/// Names and queries longer than this many bytes are not handed to the
/// matcher and match nothing.
pub const MAX_MATCH_BYTES: usize = 0xffff_ffff;

/// What the skim matcher returns for the text `choice` and the pattern
/// `pattern`: a score, or `None` for no match.
pub uninterp spec fn skim_score(choice: Seq<char>, pattern: Seq<char>) -> Option<i64>;

/// Calls `fuzzy_matcher::skim::fuzzy_match`, which scores `choice` against
/// `pattern` by the two texts alone. The contract names that score and
/// claims nothing else of it. The lengths are bounded so that the sums of
/// per-character bonuses and penalties inside the matcher stay far from
/// the limits of its 64-bit score.
#[verifier::external_body]
#[allow(deprecated)]
fn skim_match(choice: &str, pattern: &str) -> (res: Option<i64>)
    requires
        encode_utf8(choice@).len() <= MAX_MATCH_BYTES,
        encode_utf8(pattern@).len() <= MAX_MATCH_BYTES,
    ensures
        res == skim_score(choice@, pattern@),
{
    fuzzy_matcher::skim::fuzzy_match(choice, pattern)
}

/// The matcher's score of `name` for `query`, where both are short enough
/// to be matched at all.
pub open spec fn bounded_score(name: Seq<char>, query: Seq<char>) -> Option<i64> {
    if encode_utf8(name).len() <= MAX_MATCH_BYTES && encode_utf8(query).len() <= MAX_MATCH_BYTES {
        skim_score(name, query)
    } else {
        None
    }
}

/// Scores `name` against `query`.
pub fn match_score(name: &str, query: &str) -> (res: Option<i64>)
    ensures
        res == bounded_score(name@, query@),
{
    if name.as_bytes().len() <= MAX_MATCH_BYTES && query.as_bytes().len() <= MAX_MATCH_BYTES {
        skim_match(name, query)
    } else {
        None
    }
}

/// What usage adds to a rank: one point per launch, up to the cap.
pub open spec fn usage_weight(usage: u64) -> int {
    if usage < USAGE_WEIGHT_CAP {
        usage as int
    } else {
        USAGE_WEIGHT_CAP as int
    }
}

/// The rank of a record that matched with `score` and was launched `usage`
/// times.
pub open spec fn composite_rank(score: i64, usage: u64) -> int {
    score + usage_weight(usage)
}

/// The rank that a matcher result earns: none for no match and for a score
/// at or below the floor.
pub open spec fn rank_of_score(score: Option<i64>, usage: u64) -> Option<i128> {
    match score {
        Some(s) => if s > MATCH_FLOOR {
            Some(composite_rank(s, usage) as i128)
        } else {
            None
        },
        None => None,
    }
}

/// Turns a matcher result into a rank.
pub fn rank_score(score: Option<i64>, usage: u64) -> (res: Option<i128>)
    ensures
        res == rank_of_score(score, usage),
        res matches Some(r) ==> r == composite_rank(score->0, usage),
{
    match score {
        Some(s) => {
            if s > MATCH_FLOOR {
                let weight: u64 = if usage < USAGE_WEIGHT_CAP {
                    usage
                } else {
                    USAGE_WEIGHT_CAP
                };
                Some(s as i128 + weight as i128)
            } else {
                None
            }
        },
        None => None,
    }
}

/// A rank grows with the score and with the usage.
pub proof fn lemma_rank_monotonic(score_a: i64, usage_a: u64, score_b: i64, usage_b: u64)
    requires
        score_a <= score_b,
        usage_a <= usage_b,
    ensures
        composite_rank(score_a, usage_a) <= composite_rank(score_b, usage_b),
{
}

/// Usage never dominates: a score that leads by more than the cap wins
/// whatever the two usage counts are, and with equal usage the better
/// score wins.
pub proof fn lemma_usage_is_bounded(score_a: i64, usage_a: u64, score_b: i64, usage_b: u64)
    ensures
        score_a > score_b + USAGE_WEIGHT_CAP ==> composite_rank(score_a, usage_a) > composite_rank(
            score_b,
            usage_b,
        ),
        score_a > score_b && usage_a == usage_b ==> composite_rank(score_a, usage_a)
            > composite_rank(score_b, usage_b),
        composite_rank(score_a, 0) == score_a,
{
}

/// How one text stands to another in the order of names.
#[derive(Debug, PartialEq, Eq, Clone, Copy, Structural)]
pub enum Order {
    Before,
    Same,
    After,
}

/// `a` comes before `b` in lexicographic order: at the first place where
/// they differ `a` has the smaller byte, or `a` ends there and `b` goes on.
pub open spec fn bytes_before(a: Seq<u8>, b: Seq<u8>) -> bool
    decreases a.len(),
{
    if b.len() == 0 {
        false
    } else if a.len() == 0 {
        true
    } else if a[0] != b[0] {
        a[0] < b[0]
    } else {
        bytes_before(a.drop_first(), b.drop_first())
    }
}

/// Of two texts at most one comes before the other.
pub proof fn lemma_bytes_before_asymmetric(a: Seq<u8>, b: Seq<u8>)
    ensures
        !(bytes_before(a, b) && bytes_before(b, a)),
    decreases a.len(),
{
    if a.len() > 0 && b.len() > 0 && a[0] == b[0] {
        lemma_bytes_before_asymmetric(a.drop_first(), b.drop_first());
    }
}

/// Of two different texts one comes before the other.
pub proof fn lemma_bytes_before_total(a: Seq<u8>, b: Seq<u8>)
    requires
        a != b,
    ensures
        bytes_before(a, b) || bytes_before(b, a),
    decreases a.len(),
{
    if a.len() > 0 && b.len() > 0 && a[0] == b[0] {
        if a.drop_first() == b.drop_first() {
            assert(a =~= seq![a[0]] + a.drop_first());
            assert(b =~= seq![b[0]] + b.drop_first());
        }
        lemma_bytes_before_total(a.drop_first(), b.drop_first());
    } else if a.len() == 0 && b.len() == 0 {
        assert(a =~= b);
    }
}

/// The order of texts is transitive.
pub proof fn lemma_bytes_before_transitive(a: Seq<u8>, b: Seq<u8>, c: Seq<u8>)
    requires
        bytes_before(a, b),
        bytes_before(b, c),
    ensures
        bytes_before(a, c),
    decreases a.len(),
{
    if a.len() > 0 && b.len() > 0 && c.len() > 0 && a[0] == b[0] && b[0] == c[0] {
        lemma_bytes_before_transitive(a.drop_first(), b.drop_first(), c.drop_first());
    }
}

/// Two texts that agree on their first `n` bytes stand to each other as
/// what follows those bytes.
proof fn lemma_bytes_before_skip(a: Seq<u8>, b: Seq<u8>, n: int)
    requires
        0 <= n <= a.len(),
        n <= b.len(),
        forall|j: int| 0 <= j < n ==> a[j] == b[j],
    ensures
        bytes_before(a, b) == bytes_before(a.skip(n), b.skip(n)),
    decreases n,
{
    if n == 0 {
        assert(a.skip(0) =~= a);
        assert(b.skip(0) =~= b);
    } else {
        assert(a[0] == b[0]);
        let ta = a.drop_first();
        let tb = b.drop_first();
        assert forall|j: int| 0 <= j < n - 1 implies ta[j] == tb[j] by {
            assert(a[j + 1] == b[j + 1]);
        }
        lemma_bytes_before_skip(ta, tb, n - 1);
        assert(ta.skip(n - 1) =~= a.skip(n));
        assert(tb.skip(n - 1) =~= b.skip(n));
    }
}

/// Compares two texts byte by byte.
pub fn byte_order(a: &[u8], b: &[u8]) -> (res: Order)
    ensures
        res == Order::Before <==> bytes_before(a@, b@),
        res == Order::Same <==> a@ == b@,
        res == Order::After <==> bytes_before(b@, a@),
{
    let mut i: usize = 0;
    while i < a.len() && i < b.len() && a[i] == b[i]
        invariant
            i <= a.len(),
            i <= b.len(),
            forall|j: int| 0 <= j < i ==> a@[j] == b@[j],
        decreases a.len() - i,
    {
        i += 1;
    }
    proof {
        lemma_bytes_before_skip(a@, b@, i as int);
        lemma_bytes_before_skip(b@, a@, i as int);
        lemma_bytes_before_asymmetric(a@, b@);
        if i < a.len() {
            assert(a@.skip(i as int)[0] == a@[i as int]);
        }
        if i < b.len() {
            assert(b@.skip(i as int)[0] == b@[i as int]);
        }
    }
    if i == a.len() && i == b.len() {
        assert(a@ =~= b@);
        Order::Same
    } else if i == a.len() {
        Order::Before
    } else if i == b.len() {
        Order::After
    } else if a[i] < b[i] {
        Order::Before
    } else {
        Order::After
    }
}


/// What two records are ordered by: rank first, the higher one leading;
/// then usage, the more used one leading; then the name; then the
/// identifier.
pub struct RankKey {
    pub rank: int,
    pub usage: u64,
    pub name: Seq<u8>,
    pub id: u64,
}

/// `a` is listed before `b`.
pub open spec fn key_before(a: RankKey, b: RankKey) -> bool {
    ||| a.rank > b.rank
    ||| a.rank == b.rank && a.usage > b.usage
    ||| a.rank == b.rank && a.usage == b.usage && bytes_before(a.name, b.name)
    ||| a.rank == b.rank && a.usage == b.usage && a.name == b.name && a.id < b.id
}

/// The record at index `j` has a rank.
pub open spec fn ranked(records: Seq<AppRecordView>, ranks: Seq<Option<i128>>, j: int) -> bool {
    0 <= j < records.len() && j < ranks.len() && ranks[j] is Some
}

/// The ordering key of the record at index `j`.
pub open spec fn key_at(records: Seq<AppRecordView>, ranks: Seq<Option<i128>>, j: int) -> RankKey {
    RankKey {
        rank: ranks[j]->0 as int,
        usage: records[j].usage_count,
        name: encode_utf8(records[j].name),
        id: records[j].id,
    }
}

/// The record at index `a` is listed before the one at index `b`.
pub open spec fn pick_before(
    records: Seq<AppRecordView>,
    ranks: Seq<Option<i128>>,
    a: int,
    b: int,
) -> bool {
    key_before(key_at(records, ranks, a), key_at(records, ranks, b))
}

/// The index `j` is among the picks.
pub open spec fn picked(picks: Seq<usize>, j: int) -> bool {
    exists|t: int| 0 <= t < picks.len() && #[trigger] picks[t] == j
}

/// `picks` lists the best of the first `n` records: at most `limit`
/// indices of ranked records, best first, and every ranked record among
/// the first `n` that is left out comes after all of them, which happens
/// only when the list is full.
pub open spec fn is_top_of_prefix(
    records: Seq<AppRecordView>,
    ranks: Seq<Option<i128>>,
    limit: int,
    picks: Seq<usize>,
    n: int,
) -> bool {
    &&& picks.len() <= limit
    &&& forall|t: int|
        0 <= t < picks.len() ==> (#[trigger] picks[t]) < n && ranked(records, ranks, picks[t] as int)
    &&& forall|s: int, t: int|
        0 <= s < t < picks.len() ==> #[trigger] pick_before(
            records,
            ranks,
            picks[s] as int,
            picks[t] as int,
        )
    &&& forall|j: int|
        0 <= j < n && #[trigger] ranked(records, ranks, j) && !picked(picks, j) ==> picks.len()
            == limit
    &&& forall|j: int, t: int|
        0 <= j < n && ranked(records, ranks, j) && !picked(picks, j) && 0 <= t < picks.len()
            ==> #[trigger] pick_before(records, ranks, picks[t] as int, j)
}

/// `picks` lists the `limit` best ranked records, best first; all of them
/// where there are fewer.
pub open spec fn is_top_selection(
    records: Seq<AppRecordView>,
    ranks: Seq<Option<i128>>,
    limit: int,
    picks: Seq<usize>,
) -> bool {
    is_top_of_prefix(records, ranks, limit, picks, records.len() as int)
}

/// The records that `picks` points at, in the order of `picks`.
pub open spec fn records_at(records: Seq<AppRecordView>, picks: Seq<usize>) -> Seq<AppRecordView> {
    Seq::new(picks.len(), |t: int| records[picks[t] as int])
}

/// `out` holds the `limit` best ranked records, best first.
pub open spec fn is_ranking(
    records: Seq<AppRecordView>,
    ranks: Seq<Option<i128>>,
    limit: int,
    out: Seq<AppRecordView>,
) -> bool {
    exists|picks: Seq<usize>|
        #[trigger] is_top_selection(records, ranks, limit, picks) && out == records_at(
            records,
            picks,
        )
}

/// The rank of a record for a query: its usage where the query is empty,
/// else what its match earns.
pub open spec fn rank_for_query(record: AppRecordView, query: Seq<char>) -> Option<i128> {
    if query.len() == 0 {
        Some(record.usage_count as i128)
    } else {
        rank_of_score(bounded_score(record.name, query), record.usage_count)
    }
}

/// The ranks of all records for a query, index by index.
pub open spec fn query_ranks(records: Seq<AppRecordView>, query: Seq<char>) -> Seq<Option<i128>> {
    Seq::new(records.len(), |j: int| rank_for_query(records[j], query))
}

/// The order of the listing is transitive.
pub proof fn lemma_key_before_transitive(a: RankKey, b: RankKey, c: RankKey)
    requires
        key_before(a, b),
        key_before(b, c),
    ensures
        key_before(a, c),
{
    if a.rank == b.rank && b.rank == c.rank && a.usage == b.usage && b.usage == c.usage {
        if bytes_before(a.name, b.name) && bytes_before(b.name, c.name) {
            lemma_bytes_before_transitive(a.name, b.name, c.name);
        }
    }
}

/// Among equal scores the more used record leads, whatever the usage
/// counts are: where the capped weight no longer tells two counts apart,
/// the counts themselves decide.
pub proof fn lemma_more_used_leads(score: i64, a: RankKey, b: RankKey)
    requires
        a.rank == composite_rank(score, a.usage),
        b.rank == composite_rank(score, b.usage),
        a.usage > b.usage,
    ensures
        key_before(a, b),
        !key_before(b, a),
{
}

/// Of two records with different identifiers one is listed before the
/// other, and never both.
pub proof fn lemma_key_before_total(a: RankKey, b: RankKey)
    ensures
        a.id != b.id ==> key_before(a, b) || key_before(b, a),
        !(key_before(a, b) && key_before(b, a)),
{
    lemma_bytes_before_asymmetric(a.name, b.name);
    if a.name != b.name {
        lemma_bytes_before_total(a.name, b.name);
    }
}

/// Decides whether the record at index `a` is listed before the one at `b`.
fn index_before(records: &Vec<AppRecord>, ranks: &Vec<Option<i128>>, a: usize, b: usize) -> (res:
    bool)
    requires
        ranked(records.deep_view(), ranks@, a as int),
        ranked(records.deep_view(), ranks@, b as int),
    ensures
        res == pick_before(records.deep_view(), ranks@, a as int, b as int),
{
    let rank_a: i128 = match ranks[a] {
        Some(r) => r,
        None => 0,
    };
    let rank_b: i128 = match ranks[b] {
        Some(r) => r,
        None => 0,
    };
    assert(records.deep_view()[a as int] == records[a as int]@);
    assert(records.deep_view()[b as int] == records[b as int]@);
    if rank_a > rank_b {
        true
    } else if rank_a < rank_b {
        false
    } else if records[a].usage_count > records[b].usage_count {
        true
    } else if records[a].usage_count < records[b].usage_count {
        false
    } else {
        proof {
            lemma_bytes_before_asymmetric(
                encode_utf8(records[a as int].name@),
                encode_utf8(records[b as int].name@),
            );
        }
        match byte_order(records[a].name.as_str().as_bytes(), records[b].name.as_str().as_bytes()) {
            Order::Before => true,
            Order::After => false,
            Order::Same => records[a].id < records[b].id,
        }
    }
}

/// Takes the record at index `i` into the list of the best, in its place,
/// and drops the last of the list where it has grown over `limit`.
fn place_pick(
    records: &Vec<AppRecord>,
    ranks: &Vec<Option<i128>>,
    top: &mut Vec<usize>,
    i: usize,
    limit: usize,
)
    requires
        distinct_ids(records.deep_view()),
        ranked(records.deep_view(), ranks@, i as int),
        is_top_of_prefix(records.deep_view(), ranks@, limit as int, old(top)@, i as int),
    ensures
        is_top_of_prefix(records.deep_view(), ranks@, limit as int, final(top)@, i + 1),
{
    let ghost rv = records.deep_view();
    let ghost rk = ranks@;
    let ghost before = top@;
    let mut p: usize = top.len();
    while p > 0 && index_before(records, ranks, i, top[p - 1])
        invariant
            p <= top.len(),
            top@ == before,
            rv == records.deep_view(),
            rk == ranks@,
            ranked(rv, rk, i as int),
            is_top_of_prefix(rv, rk, limit as int, before, i as int),
            forall|t: int| p <= t < before.len() ==> #[trigger] pick_before(rv, rk, i as int, before[t] as int),
        decreases p,
    {
        p -= 1;
    }
    proof {
        // every pick in front of the place is listed before the newcomer
        if p > 0 {
            let last = before[p - 1] as int;
            assert(last < i);
            assert(rv[last].id != rv[i as int].id);
            lemma_key_before_total(key_at(rv, rk, last), key_at(rv, rk, i as int));
            assert(pick_before(rv, rk, last, i as int));
            assert forall|t: int| 0 <= t < p implies #[trigger] pick_before(
                rv,
                rk,
                before[t] as int,
                i as int,
            ) by {
                if t < p - 1 {
                    assert(pick_before(rv, rk, before[t] as int, before[p - 1] as int));
                    lemma_key_before_transitive(
                        key_at(rv, rk, before[t] as int),
                        key_at(rv, rk, last),
                        key_at(rv, rk, i as int),
                    );
                }
            }
        }
        assert(!picked(before, i as int));
    }
    if p < limit {
        top.insert(p, i);
        let ghost mid = top@;
        proof {
            assert(mid == before.insert(p as int, i));
            assert(mid.len() == before.len() + 1);
            assert(mid[p as int] == i);
            assert forall|t: int| 0 <= t < p implies mid[t] == before[t] by {}
            assert forall|t: int| p < t < mid.len() implies mid[t] == before[t - 1] by {}
            assert forall|s: int, t: int| 0 <= s < t < mid.len() implies #[trigger] pick_before(
                rv,
                rk,
                mid[s] as int,
                mid[t] as int,
            ) by {
                if t < p {
                    assert(pick_before(rv, rk, before[s] as int, before[t] as int));
                } else if t == p {
                    assert(pick_before(rv, rk, before[s] as int, i as int));
                } else if s < p {
                    assert(pick_before(rv, rk, before[s] as int, before[t - 1] as int));
                } else if s == p {
                    assert(pick_before(rv, rk, i as int, before[t - 1] as int));
                } else {
                    assert(pick_before(rv, rk, before[s - 1] as int, before[t - 1] as int));
                }
            }
        }
        if top.len() > limit {
            top.pop();
        }
        proof {
            let now = top@;
            let n = now.len() as int;
            assert(now =~= mid.take(n));
            assert(p < n);
            assert(now[p as int] == i);
            assert(picked(now, i as int));
            assert forall|t: int| 0 <= t < now.len() implies (#[trigger] now[t]) < i + 1 && ranked(
                rv,
                rk,
                now[t] as int,
            ) by {
                if t < p {
                    assert(now[t] == before[t]);
                } else if t > p {
                    assert(now[t] == before[t - 1]);
                }
            }
            assert forall|s: int, t: int| 0 <= s < t < now.len() implies #[trigger] pick_before(
                rv,
                rk,
                now[s] as int,
                now[t] as int,
            ) by {
                assert(pick_before(rv, rk, mid[s] as int, mid[t] as int));
            }
            assert forall|j: int|
                0 <= j < i + 1 && #[trigger] ranked(rv, rk, j) && !picked(now, j) implies now.len()
                == limit by {
                if picked(before, j) {
                    let t = choose|t: int| 0 <= t < before.len() && #[trigger] before[t] == j;
                    let u = if t < p {
                        t
                    } else {
                        t + 1
                    };
                    assert(mid[u] == j);
                    if u < n {
                        assert(now[u] == j);
                    }
                }
            }
            assert forall|j: int, t: int|
                0 <= j < i + 1 && ranked(rv, rk, j) && !picked(now, j) && 0 <= t
                    < now.len() implies #[trigger] pick_before(rv, rk, now[t] as int, j) by {
                if picked(before, j) {
                    let u0 = choose|u0: int| 0 <= u0 < before.len() && #[trigger] before[u0] == j;
                    let u = if u0 < p {
                        u0
                    } else {
                        u0 + 1
                    };
                    assert(mid[u] == j);
                    if u < n {
                        assert(now[u] == j);
                    }
                    assert(u == n);
                    assert(pick_before(rv, rk, mid[t] as int, mid[u] as int));
                } else {
                    assert(before.len() == limit);
                    if t == p {
                        assert(pick_before(rv, rk, i as int, before[p as int] as int));
                        assert(pick_before(rv, rk, before[p as int] as int, j));
                        lemma_key_before_transitive(
                            key_at(rv, rk, i as int),
                            key_at(rv, rk, before[p as int] as int),
                            key_at(rv, rk, j),
                        );
                    } else if t < p {
                        assert(pick_before(rv, rk, before[t] as int, j));
                    } else {
                        assert(pick_before(rv, rk, before[t - 1] as int, j));
                    }
                }
            }
        }
    } else {
        proof {
            assert(p == before.len() && before.len() == limit);
            assert forall|j: int, t: int|
                0 <= j < i + 1 && ranked(rv, rk, j) && !picked(before, j) && 0 <= t
                    < before.len() implies #[trigger] pick_before(rv, rk, before[t] as int, j) by {
                if j == i {
                    assert(pick_before(rv, rk, before[t] as int, i as int));
                }
            }
        }
    }
}

/// Two lists of the best agree on their first `t` places.
proof fn lemma_selections_agree(
    records: Seq<AppRecordView>,
    ranks: Seq<Option<i128>>,
    limit: int,
    a: Seq<usize>,
    b: Seq<usize>,
    t: int,
)
    requires
        distinct_ids(records),
        is_top_selection(records, ranks, limit, a),
        is_top_selection(records, ranks, limit, b),
        0 <= t <= a.len(),
        t <= b.len(),
    ensures
        forall|s: int| 0 <= s < t ==> a[s] == b[s],
    decreases t,
{
    if t > 0 {
        lemma_selections_agree(records, ranks, limit, a, b, t - 1);
        if a[t - 1] != b[t - 1] {
            let x = a[t - 1] as int;
            let y = b[t - 1] as int;
            assert(ranked(records, ranks, x) && ranked(records, ranks, y));
            assert(records[x].id != records[y].id);
            lemma_key_before_total(key_at(records, ranks, x), key_at(records, ranks, y));
            if pick_before(records, ranks, x, y) {
                lemma_leader_is_picked(records, ranks, limit, a, b, t - 1);
            } else {
                lemma_leader_is_picked(records, ranks, limit, b, a, t - 1);
            }
        }
    }
}

/// Where two lists of the best agree before place `t` and differ there,
/// the entry of the first does not lead the entry of the second.
proof fn lemma_leader_is_picked(
    records: Seq<AppRecordView>,
    ranks: Seq<Option<i128>>,
    limit: int,
    a: Seq<usize>,
    b: Seq<usize>,
    t: int,
)
    requires
        is_top_selection(records, ranks, limit, a),
        is_top_selection(records, ranks, limit, b),
        0 <= t < a.len(),
        t < b.len(),
        forall|s: int| 0 <= s < t ==> a[s] == b[s],
        a[t] != b[t],
    ensures
        !pick_before(records, ranks, a[t] as int, b[t] as int),
{
    let x = a[t] as int;
    let y = b[t] as int;
    lemma_key_before_total(key_at(records, ranks, x), key_at(records, ranks, y));
    lemma_key_before_total(key_at(records, ranks, x), key_at(records, ranks, x));
    assert(ranked(records, ranks, x));
    if pick_before(records, ranks, x, y) {
        if picked(b, x) {
            let u = choose|u: int| 0 <= u < b.len() && #[trigger] b[u] == x;
            if u < t {
                assert(a[u] == b[u]);
                assert(pick_before(records, ranks, a[u] as int, a[t] as int));
            } else if u > t {
                assert(pick_before(records, ranks, b[t] as int, b[u] as int));
            }
        } else {
            assert(pick_before(records, ranks, b[t] as int, x));
        }
    }
}

/// The ranking is determined: among records with distinct identifiers
/// there is one list of the `limit` best, so the same query on the same
/// store is always answered alike.
pub proof fn lemma_selection_unique(
    records: Seq<AppRecordView>,
    ranks: Seq<Option<i128>>,
    limit: int,
    a: Seq<usize>,
    b: Seq<usize>,
)
    requires
        distinct_ids(records),
        is_top_selection(records, ranks, limit, a),
        is_top_selection(records, ranks, limit, b),
    ensures
        a == b,
{
    let n = if a.len() <= b.len() {
        a.len() as int
    } else {
        b.len() as int
    };
    lemma_selections_agree(records, ranks, limit, a, b, n);
    lemma_length_bound(records, ranks, limit, a, b);
    lemma_length_bound(records, ranks, limit, b, a);
    assert(a =~= b);
}

/// Of two lists of the best that agree as far as both reach, the second
/// is no longer than the first.
proof fn lemma_length_bound(
    records: Seq<AppRecordView>,
    ranks: Seq<Option<i128>>,
    limit: int,
    a: Seq<usize>,
    b: Seq<usize>,
)
    requires
        is_top_selection(records, ranks, limit, a),
        is_top_selection(records, ranks, limit, b),
        forall|s: int| 0 <= s < a.len() && s < b.len() ==> a[s] == b[s],
    ensures
        b.len() <= a.len(),
{
    if a.len() < b.len() {
        let n = a.len() as int;
        let y = b[n] as int;
        assert(ranked(records, ranks, y));
        lemma_key_before_total(key_at(records, ranks, y), key_at(records, ranks, y));
        if picked(a, y) {
            let u = choose|u: int| 0 <= u < a.len() && #[trigger] a[u] == y;
            assert(a[u] == b[u]);
            assert(pick_before(records, ranks, b[u] as int, b[n] as int));
        }
    }
}

/// Two answers to one query on one store are the same answer.
pub proof fn lemma_ranking_unique(
    records: Seq<AppRecordView>,
    ranks: Seq<Option<i128>>,
    limit: int,
    first: Seq<AppRecordView>,
    second: Seq<AppRecordView>,
)
    requires
        distinct_ids(records),
        is_ranking(records, ranks, limit, first),
        is_ranking(records, ranks, limit, second),
    ensures
        first == second,
{
    let a = choose|picks: Seq<usize>|
        #[trigger] is_top_selection(records, ranks, limit, picks) && first == records_at(
            records,
            picks,
        );
    let b = choose|picks: Seq<usize>|
        #[trigger] is_top_selection(records, ranks, limit, picks) && second == records_at(
            records,
            picks,
        );
    lemma_selection_unique(records, ranks, limit, a, b);
}

impl IndexStore {
    /// Picks the `limit` best of the ranked records.
    ///
    /// `ranks[j]` is the rank of the record at index `j`, `None` where that
    /// record is out of the running; an index that `ranks` does not reach
    /// has no rank. The result lists indices into the records, best first.
    pub fn select_top(&self, ranks: &Vec<Option<i128>>, limit: usize) -> (picks: Vec<usize>)
        ensures
            is_top_selection(self@.records, ranks@, limit as int, picks@),
    {
        self.validity();
        let records = self.records();
        let mut top: Vec<usize> = Vec::new();
        let mut i: usize = 0;
        while i < records.len()
            invariant
                i <= records.len(),
                distinct_ids(records.deep_view()),
                is_top_of_prefix(records.deep_view(), ranks@, limit as int, top@, i as int),
            decreases records.len() - i,
        {
            if i < ranks.len() && ranks[i].is_some() {
                place_pick(records, ranks, &mut top, i, limit);
            }
            i += 1;
        }
        top
    }

    /// Ranks every record for `query`; see [`rank_for_query`].
    pub fn rank_all(&self, query: &str) -> (ranks: Vec<Option<i128>>)
        ensures
            ranks@ == query_ranks(self@.records, query@),
    {
        let records = self.records();
        let by_usage = query.is_empty();
        let mut ranks: Vec<Option<i128>> = Vec::new();
        let mut i: usize = 0;
        while i < records.len()
            invariant
                i <= records.len(),
                records.deep_view() == self@.records,
                by_usage == (query@.len() == 0),
                ranks@.len() == i,
                forall|j: int|
                    0 <= j < i ==> ranks@[j] == rank_for_query(
                        #[trigger] records.deep_view()[j],
                        query@,
                    ),
            decreases records.len() - i,
        {
            assert(records.deep_view()[i as int] == records[i as int]@);
            let rank = if by_usage {
                Some(records[i].usage_count as i128)
            } else {
                rank_score(match_score(records[i].name.as_str(), query), records[i].usage_count)
            };
            ranks.push(rank);
            i += 1;
        }
        assert(ranks@ =~= query_ranks(self@.records, query@));
        ranks
    }

    /// Answers a query with at most `limit` records, best first.
    ///
    /// A non-empty query is answered by the records whose names the
    /// matcher scores above the floor, ordered by score plus usage weight;
    /// of two records with the same score the more used one comes first.
    /// An empty query is answered by the records in the order of their
    /// usage, the most used first. What is still tied goes by name, then
    /// by identifier.
    pub fn ranked_search(&self, query: &str, limit: usize) -> (out: Vec<AppRecord>)
        ensures
            is_ranking(
                self@.records,
                query_ranks(self@.records, query@),
                limit as int,
                out.deep_view(),
            ),
            out.len() <= limit,
            query@.len() > 0 ==> forall|t: int|
                0 <= t < out.len() ==> (bounded_score(
                    (#[trigger] out.deep_view()[t]).name,
                    query@,
                ) matches Some(s) && s > MATCH_FLOOR),
            query@.len() == 0 ==> forall|s: int, t: int|
                0 <= s < t < out.len() ==> (#[trigger] out.deep_view()[s]).usage_count >= (
                #[trigger] out.deep_view()[t]).usage_count,
            forall|s: int, t: int|
                0 <= s < t < out.len() && bounded_score(
                    (#[trigger] out.deep_view()[s]).name,
                    query@,
                ) == bounded_score((#[trigger] out.deep_view()[t]).name, query@)
                    ==> out.deep_view()[s].usage_count >= out.deep_view()[t].usage_count,
    {
        self.validity();
        let records = self.records();
        let ranks = self.rank_all(query);
        let picks = self.select_top(&ranks, limit);
        let ghost rv = self@.records;
        let ghost rk = ranks@;
        let mut out: Vec<AppRecord> = Vec::new();
        let mut t: usize = 0;
        while t < picks.len()
            invariant
                t <= picks.len(),
                rv == records.deep_view(),
                is_top_selection(rv, rk, limit as int, picks@),
                out.len() == t,
                forall|u: int| 0 <= u < t ==> #[trigger] out.deep_view()[u] == rv[picks@[u] as int],
            decreases picks.len() - t,
        {
            let ghost prev = out.deep_view();
            assert(ranked(rv, rk, picks@[t as int] as int));
            assert(records.deep_view()[picks@[t as int] as int] == records[picks@[t as int] as int]@);
            let r = records[picks[t]].clone();
            out.push(r);
            assert(out.deep_view() =~= prev.push(r@));
            t += 1;
        }
        proof {
            assert(out.deep_view() =~= records_at(rv, picks@));
            assert forall|u: int| 0 <= u < out.len() implies rank_for_query(
                #[trigger] out.deep_view()[u],
                query@,
            ) is Some by {
                assert(ranked(rv, rk, picks@[u] as int));
            }
            assert forall|a: int, b: int|
                query@.len() == 0 && 0 <= a < b < out.len() implies (#[trigger] out.deep_view()[a]).usage_count
                >= (#[trigger] out.deep_view()[b]).usage_count by {
                assert(pick_before(rv, rk, picks@[a] as int, picks@[b] as int));
                assert(ranked(rv, rk, picks@[a] as int));
                assert(ranked(rv, rk, picks@[b] as int));
            }
            assert forall|a: int, b: int|
                0 <= a < b < out.len() && bounded_score(
                    (#[trigger] out.deep_view()[a]).name,
                    query@,
                ) == bounded_score(
                    (#[trigger] out.deep_view()[b]).name,
                    query@,
                ) implies out.deep_view()[a].usage_count >= out.deep_view()[b].usage_count by {
                assert(pick_before(rv, rk, picks@[a] as int, picks@[b] as int));
                assert(ranked(rv, rk, picks@[a] as int));
                assert(ranked(rv, rk, picks@[b] as int));
            }
        }
        out
    }
}

} // verus!
