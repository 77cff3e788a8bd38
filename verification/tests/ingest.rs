use evaluator::evaluation::evaluate;
use evaluator::ingest::{update_certain_leaderboard, upsert_leaderboard, LeaderboardFetch, RankedEntry};
use evaluator::store::ScoreStore;

fn row(player: &str, score: i32, name: &str) -> RankedEntry {
    RankedEntry {
        player_id: player.to_string(),
        raw_score: score,
        display_name: name.to_string(),
    }
}

fn snapshot(store: &ScoreStore) -> Vec<String> {
    let mut lines = Vec::new();
    for p in store.players() {
        lines.push(format!(
            "player {} {} {} {} {:?}",
            p.id, p.entry_count, p.evaluation_sum, p.evaluation, p.display_name
        ));
    }
    for l in store.levels() {
        lines.push(format!(
            "level {} {} {} {} {:?} {:?}",
            l.id, l.entry_count, l.evaluation_sum, l.evaluation, l.source_file_id, l.display_name
        ));
    }
    for e in store.entries() {
        lines.push(format!(
            "entry {} {} {} {} {}",
            e.level_id, e.player_id, e.raw_score, e.rank, e.evaluation
        ));
    }
    lines
}

#[test]
fn a_fresh_leaderboard_is_ranked_by_position() {
    let mut store = ScoreStore::new();
    let rows: Vec<RankedEntry> =
        (0..30).map(|i| row(&format!("player{}", i), 100 + i, &format!("Player {}", i))).collect();
    upsert_leaderboard(&mut store, "L", &rows);
    assert_eq!(store.level("L").unwrap().entry_count, 30);
    let mut ranks: Vec<u64> =
        store.entries().iter().filter(|e| e.level_id == "L").map(|e| e.rank).collect();
    ranks.sort();
    assert_eq!(ranks, (1..=30).collect::<Vec<u64>>());
    for (i, entry) in store.entries().iter().enumerate() {
        assert_eq!(entry.player_id, format!("player{}", i));
        assert_eq!(entry.rank, i as u64 + 1);
        assert_eq!(entry.raw_score, 100 + i as i32);
        assert_eq!(entry.evaluation, evaluate(i as u64 + 1, 30));
    }
    assert_eq!(store.entry("L", "player0").unwrap().evaluation, 1000);
    assert_eq!(store.entry("L", "player25").unwrap().evaluation, 333);
    assert_eq!(store.player("player7").unwrap().display_name.as_deref(), Some("Player 7"));
}

#[test]
fn taking_a_leaderboard_in_twice_changes_nothing() {
    let mut store = ScoreStore::new();
    store.upsert_entry("M", "b", 5, 1, 1000);
    let fetched = LeaderboardFetch::Found(vec![
        row("a", 10, "Ann"),
        row("b", 20, "Bob"),
        row("a", 30, "Ann again"),
        row("c", 40, "Cy"),
    ]);
    assert!(update_certain_leaderboard(&mut store, "L", "42", "Level L", &fetched));
    let first = snapshot(&store);
    assert!(update_certain_leaderboard(&mut store, "L", "42", "Level L", &fetched));
    assert_eq!(snapshot(&store), first);
    // the second row of player a replaced the first
    let a = store.entry("L", "a").unwrap();
    assert_eq!((a.raw_score, a.rank, a.evaluation), (30, 3, evaluate(3, 4)));
    assert_eq!(store.level("L").unwrap().entry_count, 3);
    assert_eq!(store.player("a").unwrap().display_name.as_deref(), Some("Ann again"));
    assert_eq!(store.player("a").unwrap().evaluation_sum, evaluate(3, 4) as u128);
    assert_eq!(store.player("b").unwrap().evaluation_sum, 1000 + evaluate(2, 4) as u128);
}

#[test]
fn a_leaderboard_that_shrank_moves_the_sums() {
    let mut store = ScoreStore::new();
    let long: Vec<RankedEntry> = (0..20).map(|i| row(&format!("player{}", i), i, "x")).collect();
    upsert_leaderboard(&mut store, "L", &long);
    assert_eq!(store.player("player0").unwrap().evaluation_sum, 1000);
    let short = vec![row("player1", 1, "x"), row("player0", 2, "x")];
    upsert_leaderboard(&mut store, "L", &short);
    assert_eq!(store.player("player1").unwrap().evaluation_sum, 100);
    assert_eq!(store.player("player0").unwrap().evaluation_sum, evaluate(2, 2) as u128);
    assert_eq!(store.player("player0").unwrap().evaluation_sum, 95);
    assert_eq!(store.player("player2").unwrap().evaluation_sum, evaluate(3, 20) as u128);
    assert_eq!(store.level("L").unwrap().entry_count, 20);
}

#[test]
fn an_empty_leaderboard_still_registers_the_level() {
    let mut store = ScoreStore::new();
    let fetched = LeaderboardFetch::Found(vec![]);
    assert!(update_certain_leaderboard(&mut store, "L", "42", "Level L", &fetched));
    let level = store.level("L").unwrap();
    assert_eq!(level.entry_count, 0);
    assert_eq!(level.source_file_id.as_deref(), Some("42"));
    assert_eq!(level.display_name.as_deref(), Some("Level L"));
    assert_eq!(store.entries().len(), 0);
    assert_eq!(store.players().len(), 0);
}

#[test]
fn a_leaderboard_that_was_not_found_is_passed_over() {
    let mut store = ScoreStore::new();
    store.upsert_entry("M", "b", 5, 1, 1000);
    let before = snapshot(&store);
    assert!(!update_certain_leaderboard(&mut store, "L", "42", "Level L", &LeaderboardFetch::NotFound));
    assert_eq!(snapshot(&store), before);
    assert!(store.level("L").is_none());
}

#[test]
fn catalog_info_is_overwritten_by_the_next_ingestion() {
    let mut store = ScoreStore::new();
    let fetched = LeaderboardFetch::Found(vec![row("a", 10, "Ann")]);
    update_certain_leaderboard(&mut store, "L", "42", "Old", &fetched);
    store.recompute_all_level_sums();
    update_certain_leaderboard(&mut store, "L", "43", "New", &fetched);
    let level = store.level("L").unwrap();
    assert_eq!(level.source_file_id.as_deref(), Some("43"));
    assert_eq!(level.display_name.as_deref(), Some("New"));
    assert_eq!(level.evaluation_sum, 0);
    assert_eq!(store.player("a").unwrap().evaluation_sum, 50);
}

#[test]
fn a_leaderboard_that_grew_and_reshuffled_is_ranked_anew() {
    let mut store = ScoreStore::new();
    store.upsert_entry("M", "ann", 5, 1, 1000);
    upsert_leaderboard(&mut store, "L", &vec![row("ann", 10, "Ann"), row("bob", 20, "Bob")]);
    let refreshed =
        vec![row("cy", 5, "Cy"), row("bob", 8, "Bob"), row("dee", 9, "Dee"), row("ann", 10, "Ann")];
    upsert_leaderboard(&mut store, "L", &refreshed);
    let level = store.level("L").unwrap();
    assert_eq!(level.entry_count, 4);
    let mut ranks: Vec<(u64, String)> = store
        .entries()
        .iter()
        .filter(|e| e.level_id == "L")
        .map(|e| (e.rank, e.player_id.clone()))
        .collect();
    ranks.sort();
    let expected: Vec<(u64, String)> = [(1, "cy"), (2, "bob"), (3, "dee"), (4, "ann")]
        .iter()
        .map(|(rank, player)| (*rank, player.to_string()))
        .collect();
    assert_eq!(ranks, expected);
    assert_eq!(store.entry("L", "ann").unwrap().evaluation, evaluate(4, 4));
    assert_eq!(store.player("ann").unwrap().evaluation_sum, 1000 + evaluate(4, 4) as u128);
    assert_eq!(store.player("ann").unwrap().entry_count, 2);
}

#[test]
fn a_long_leaderboard_is_taken_in_whole() {
    let mut store = ScoreStore::new();
    let rows: Vec<RankedEntry> =
        (0..20_000).map(|i| row(&format!("player{}", i), i, "someone")).collect();
    upsert_leaderboard(&mut store, "L", &rows);
    assert_eq!(store.level("L").unwrap().entry_count, 20_000);
    assert_eq!(store.entry("L", "player0").unwrap().evaluation, 1000);
    assert_eq!(store.entry("L", "player157").unwrap().evaluation, 1);
    assert_eq!(store.entry("L", "player158").unwrap().evaluation, 0);
    let last = store.entry("L", "player19999").unwrap();
    assert_eq!((last.rank, last.evaluation), (20_000, 0));
    let total: u128 = store.players().iter().map(|p| p.evaluation_sum).sum();
    let by_entries: u128 = store.entries().iter().map(|e| e.evaluation as u128).sum();
    assert_eq!(total, by_entries);
}
