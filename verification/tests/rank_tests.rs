use poki_launcher::rank::{
    byte_order, match_score, rank_score, Order, MATCH_FLOOR, MAX_MATCH_BYTES, USAGE_WEIGHT_CAP,
};
use poki_launcher::record::{AppRecord, ExecutionSpec};
use poki_launcher::store::IndexStore;

fn app(id: u64, name: &str, usage: u64) -> AppRecord {
    AppRecord {
        id,
        name: name.to_string(),
        launch: ExecutionSpec::new(name.to_lowercase(), String::new()),
        usage_count: usage,
        last_used: None,
        source_path: format!("/apps/{}.desktop", id),
    }
}

fn store_of(records: Vec<AppRecord>) -> IndexStore {
    let next = records.iter().map(|r| r.id + 1).max().unwrap_or(0);
    IndexStore::from_parts(records, vec![], next).unwrap()
}

fn names(records: &[AppRecord]) -> Vec<String> {
    records.iter().map(|r| r.name.clone()).collect()
}

#[test]
fn constants_are_as_documented() {
    assert_eq!(MATCH_FLOOR, 0);
    assert_eq!(USAGE_WEIGHT_CAP, 16);
    assert_eq!(MAX_MATCH_BYTES, 0xffff_ffff);
}

#[test]
#[allow(deprecated)]
fn match_score_is_the_score_of_the_matcher() {
    for (name, query) in [
        ("Firefox", "fir"),
        ("Files", "fir"),
        ("Files", "fi"),
        ("LibreOffice Writer", "low"),
        ("axbycz", "abc"),
        ("Terminal", ""),
        ("", "x"),
        ("Zürich Maps", "zü"),
    ] {
        assert_eq!(match_score(name, query), fuzzy_matcher::skim::fuzzy_match(name, query));
    }
}

#[test]
fn match_score_wants_the_query_in_order() {
    assert!(match_score("Firefox", "fir").unwrap() > 0);
    assert_eq!(match_score("Files", "fir"), None);
    assert_eq!(match_score("Firefox", "xof"), None);
    assert_eq!(match_score("abc", "abx"), None);
    assert_eq!(match_score("Firefox", ""), Some(0));
}

#[test]
fn match_score_prefers_contiguous_runs() {
    let together = match_score("xxabcxx", "abc").unwrap();
    let scattered = match_score("xxaxbxc", "abc").unwrap();
    assert!(together > scattered);
}

#[test]
fn rank_score_adds_the_capped_usage() {
    assert_eq!(rank_score(Some(10), 0), Some(10));
    assert_eq!(rank_score(Some(10), 3), Some(13));
    assert_eq!(rank_score(Some(10), 16), Some(26));
    assert_eq!(rank_score(Some(10), 17), Some(26));
    assert_eq!(rank_score(Some(10), u64::MAX), Some(26));
    assert_eq!(rank_score(Some(1), 0), Some(1));
    assert_eq!(rank_score(Some(i64::MAX), 20), Some(i64::MAX as i128 + 16));
}

#[test]
fn rank_score_drops_what_is_at_or_below_the_floor() {
    assert_eq!(rank_score(Some(0), 50), None);
    assert_eq!(rank_score(Some(-3), 50), None);
    assert_eq!(rank_score(Some(i64::MIN), 0), None);
    assert_eq!(rank_score(None, 50), None);
}

#[test]
fn byte_order_is_lexicographic() {
    assert_eq!(byte_order(b"", b""), Order::Same);
    assert_eq!(byte_order(b"abc", b"abc"), Order::Same);
    assert_eq!(byte_order(b"", b"a"), Order::Before);
    assert_eq!(byte_order(b"a", b""), Order::After);
    assert_eq!(byte_order(b"ab", b"abc"), Order::Before);
    assert_eq!(byte_order(b"abd", b"abc"), Order::After);
    assert_eq!(byte_order(b"abc", b"abd"), Order::Before);
    assert_eq!(byte_order(b"B", b"a"), Order::Before);
    assert_eq!(byte_order(&[0xff], &[0x00, 0x01]), Order::After);
}

#[test]
fn firefox_is_found_and_files_leads_the_empty_query() {
    let store = store_of(vec![app(0, "Firefox", 0), app(1, "Files", 3)]);
    let found = store.ranked_search("fir", 5);
    assert_eq!(names(&found), vec!["Firefox"]);
    let most_used = store.ranked_search("", 1);
    assert_eq!(names(&most_used), vec!["Files"]);
    let all = store.ranked_search("", 5);
    assert_eq!(names(&all), vec!["Files", "Firefox"]);
}

#[test]
fn search_returns_at_most_limit_records() {
    let records: Vec<AppRecord> = (0..20).map(|i| app(i, &format!("Tool {}", i), i)).collect();
    let store = store_of(records);
    for limit in [0usize, 1, 5, 19, 20, 21, 1000] {
        assert!(store.ranked_search("tool", limit).len() <= limit);
        assert!(store.ranked_search("", limit).len() <= limit);
        assert_eq!(store.ranked_search("tool", limit).len(), limit.min(20));
        assert_eq!(store.ranked_search("", limit).len(), limit.min(20));
    }
    assert!(store.ranked_search("", 0).is_empty());
}

#[test]
fn every_result_matches_above_the_floor() {
    let store = store_of(vec![
        app(0, "Firefox", 0),
        app(1, "Files", 3),
        app(2, "Fire Alarm", 1),
        app(3, "Terminal", 9),
        app(4, "Refine", 2),
    ]);
    let found = store.ranked_search("fir", 10);
    assert!(!found.is_empty());
    for r in &found {
        assert!(match_score(&r.name, "fir").unwrap() > MATCH_FLOOR);
    }
    for r in store.records() {
        let listed = found.iter().any(|f| f.id == r.id);
        let matches = matches!(match_score(&r.name, "fir"), Some(s) if s > MATCH_FLOOR);
        assert_eq!(listed, matches);
    }
}

#[test]
fn results_are_ordered_by_score_plus_usage() {
    let store = store_of(vec![
        app(0, "Firefox", 0),
        app(1, "Fire Alarm", 1),
        app(2, "Refine Fir", 40),
        app(3, "Last Fir", 3),
    ]);
    let found = store.ranked_search("fir", 10);
    let ranks: Vec<i128> = found
        .iter()
        .map(|r| rank_score(match_score(&r.name, "fir"), r.usage_count).unwrap())
        .collect();
    assert_eq!(found.len(), 4);
    for pair in ranks.windows(2) {
        assert!(pair[0] >= pair[1]);
    }
}

#[test]
fn empty_query_lists_by_usage_then_name_then_id() {
    let store = store_of(vec![
        app(0, "Delta", 2),
        app(1, "Alpha", 5),
        app(2, "Charlie", 2),
        app(3, "Bravo", 9),
        app(4, "Charlie", 2),
        app(5, "Echo", 0),
    ]);
    let found = store.ranked_search("", 10);
    let ids: Vec<u64> = found.iter().map(|r| r.id).collect();
    assert_eq!(ids, vec![3, 1, 2, 4, 0, 5]);
    for pair in found.windows(2) {
        assert!(pair[0].usage_count >= pair[1].usage_count);
    }
    let top: Vec<u64> = store.ranked_search("", 3).iter().map(|r| r.id).collect();
    assert_eq!(top, vec![3, 1, 2]);
}

#[test]
fn empty_query_is_not_capped_by_the_usage_weight() {
    let store = store_of(vec![app(0, "A", 17), app(1, "B", 400), app(2, "C", 18)]);
    let ids: Vec<u64> = store.ranked_search("", 3).iter().map(|r| r.id).collect();
    assert_eq!(ids, vec![1, 2, 0]);
}

#[test]
fn usage_decides_between_equal_matches() {
    let store = store_of(vec![app(0, "Terminal", 1), app(1, "Terminal", 6), app(2, "Terminal", 3)]);
    let ids: Vec<u64> = store.ranked_search("term", 3).iter().map(|r| r.id).collect();
    assert_eq!(ids, vec![1, 2, 0]);
    let best: Vec<u64> = store.ranked_search("term", 1).iter().map(|r| r.id).collect();
    assert_eq!(best, vec![1]);
}

#[test]
fn usage_decides_between_equal_matches_beyond_the_cap() {
    let store = store_of(vec![app(0, "Terminal", 17), app(1, "Terminal", 400)]);
    let ids: Vec<u64> = store.ranked_search("term", 5).iter().map(|r| r.id).collect();
    assert_eq!(ids, vec![1, 0]);
    let best: Vec<u64> = store.ranked_search("term", 1).iter().map(|r| r.id).collect();
    assert_eq!(best, vec![1]);
    let store = store_of(vec![
        app(0, "Terminal", 16),
        app(1, "Terminal", u64::MAX),
        app(2, "Terminal", 16),
        app(3, "Terminal", 15),
        app(4, "Terminal", 1000),
    ]);
    let ids: Vec<u64> = store.ranked_search("term", 5).iter().map(|r| r.id).collect();
    assert_eq!(ids, vec![1, 4, 0, 2, 3]);
}

#[test]
fn equal_ranks_go_by_usage_before_the_name() {
    let store = store_of(vec![app(0, "a", 2), app(1, "b", 7), app(2, "a", 7), app(3, "c", 9)]);
    let ranks = vec![Some(5), Some(5), Some(5), Some(4)];
    assert_eq!(store.select_top(&ranks, 10), vec![2, 1, 0, 3]);
    assert_eq!(store.select_top(&ranks, 1), vec![2]);
}

#[test]
fn a_much_better_match_beats_heavy_usage() {
    let good = match_score("Firefox", "firefox").unwrap();
    let poor = match_score("File Reader For Oxen", "firefox").unwrap();
    assert!(good > poor + USAGE_WEIGHT_CAP as i64);
    let store = store_of(vec![app(0, "File Reader For Oxen", 1_000_000), app(1, "Firefox", 0)]);
    let ids: Vec<u64> = store.ranked_search("firefox", 2).iter().map(|r| r.id).collect();
    assert_eq!(ids, vec![1, 0]);
}

#[test]
fn the_same_query_gives_the_same_answer() {
    let store = store_of(vec![
        app(0, "Firefox", 0),
        app(1, "Fire Alarm", 1),
        app(2, "Refine Fir", 4),
        app(3, "Files", 3),
    ]);
    let first = store.ranked_search("fir", 3);
    let second = store.ranked_search("fir", 3);
    assert_eq!(first, second);
}

#[test]
fn select_top_orders_by_rank_name_and_id() {
    let store = store_of(vec![
        app(0, "b", 0),
        app(1, "a", 0),
        app(2, "a", 0),
        app(3, "z", 0),
        app(4, "c", 0),
        app(5, "ab", 0),
    ]);
    let ranks = vec![Some(5), Some(5), Some(5), Some(9), None, Some(5)];
    assert_eq!(store.select_top(&ranks, 10), vec![3, 1, 2, 5, 0]);
    assert_eq!(store.select_top(&ranks, 2), vec![3, 1]);
    assert_eq!(store.select_top(&ranks, 0), Vec::<usize>::new());
    let short = vec![None, Some(-4)];
    assert_eq!(store.select_top(&short, 10), vec![1]);
    let long = vec![Some(1), Some(2), Some(3), Some(4), Some(5), Some(6), Some(7), Some(8)];
    assert_eq!(store.select_top(&long, 10), vec![5, 4, 3, 2, 1, 0]);
    let wide = vec![Some(i128::MIN), Some(i128::MAX), Some(0)];
    assert_eq!(store.select_top(&wide, 3), vec![1, 2, 0]);
}

#[test]
fn rank_all_ranks_each_record() {
    let store = store_of(vec![app(0, "Firefox", 2), app(1, "Files", 30)]);
    assert_eq!(store.rank_all(""), vec![Some(2), Some(30)]);
    let ranks = store.rank_all("fir");
    assert_eq!(ranks.len(), 2);
    assert_eq!(ranks[0], Some(match_score("Firefox", "fir").unwrap() as i128 + 2));
    assert_eq!(ranks[1], None);
}

#[test]
fn search_in_an_empty_store_finds_nothing() {
    let store = IndexStore::new(vec![]);
    assert!(store.ranked_search("x", 5).is_empty());
    assert!(store.ranked_search("", 5).is_empty());
}
